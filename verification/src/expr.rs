use vstd::prelude::*;

use crate::error::ExprError;
use crate::token::{
    spec_assoc, spec_compute, spec_is_operator, spec_precedence, spec_tokenize, Token, Tokenizer,
};
use crate::ASSOC_LEFT;

verus! {

/// The outcome of parsing a piece of the token sequence: the value computed
/// and the index just past the last token consumed, or the error raised.
pub type ParseStep = Result<(i32, int), ExprError>;

/// `compute_atom` at position `i`, with bounded recursion depth: `None` only
/// when `fuel` runs out, which `parse_fuel` rules out.
pub open spec fn atom_with_fuel(toks: Seq<Token>, i: int, fuel: nat) -> Option<ParseStep>
    decreases fuel,
{
    if fuel == 0 {
        None
    } else if !(0 <= i < toks.len()) {
        Some(Err(ExprError::ExpectedOperand))
    } else {
        match toks[i] {
            Token::Number(n) => Some(Ok((n, i + 1))),
            Token::LeftParen => match expr_with_fuel(toks, i + 1, 1, (fuel - 1) as nat) {
                None => None,
                Some(Err(e)) => Some(Err(e)),
                Some(Ok((v, j))) => if 0 <= j < toks.len() && toks[j] is RightParen {
                    Some(Ok((v, j + 1)))
                } else {
                    Some(Err(ExprError::ExpectedCloseParen))
                },
            },
            _ => Some(Err(ExprError::ExpectedOperand)),
        }
    }
}

/// `compute_expr` at position `i`: an atom, then precedence climbing.
pub open spec fn expr_with_fuel(toks: Seq<Token>, i: int, min_prec: int, fuel: nat) -> Option<
    ParseStep,
>
    decreases fuel,
{
    if fuel == 0 {
        None
    } else {
        match atom_with_fuel(toks, i, (fuel - 1) as nat) {
            None => None,
            Some(Err(e)) => Some(Err(e)),
            Some(Ok((v, j))) => climb_with_fuel(toks, j, min_prec, v, (fuel - 1) as nat),
        }
    }
}

/// The climbing loop of `compute_expr`: starting from the accumulated value
/// `acc` at position `j`, fold in every following operator whose precedence
/// reaches `min_prec`, recursing to the right with the operator's precedence
/// (right-associative) or one more (left-associative).
pub open spec fn climb_with_fuel(
    toks: Seq<Token>,
    j: int,
    min_prec: int,
    acc: i32,
    fuel: nat,
) -> Option<ParseStep>
    decreases fuel,
{
    if fuel == 0 {
        None
    } else if !(0 <= j < toks.len()) || !spec_is_operator(toks[j]) || spec_precedence(toks[j])
        < min_prec {
        Some(Ok((acc, j)))
    } else {
        let op = toks[j];
        let next_min = if spec_assoc(op) == ASSOC_LEFT {
            spec_precedence(op) + 1
        } else {
            spec_precedence(op)
        };
        match expr_with_fuel(toks, j + 1, next_min, (fuel - 1) as nat) {
            None => None,
            Some(Err(e)) => Some(Err(e)),
            Some(Ok((rhs, k))) => match spec_compute(op, acc, rhs) {
                Some(v) => climb_with_fuel(toks, k, min_prec, v, (fuel - 1) as nat),
                None => Some(Err(ExprError::ComputeFailed)),
            },
        }
    }
}

/// Fuel that is ample for parsing from any position of `toks`.
pub open spec fn parse_fuel(toks: Seq<Token>) -> nat {
    3 * toks.len() + 6
}

/// What parsing one atom at position `i` of `toks` yields.
pub open spec fn spec_atom(toks: Seq<Token>, i: int) -> ParseStep {
    match atom_with_fuel(toks, i, parse_fuel(toks)) {
        Some(r) => r,
        None => Err(ExprError::ExpectedOperand),
    }
}

/// What parsing an expression at position `i` of `toks` with minimum
/// operator precedence `min_prec` yields.
pub open spec fn spec_expr(toks: Seq<Token>, i: int, min_prec: int) -> ParseStep {
    match expr_with_fuel(toks, i, min_prec, parse_fuel(toks)) {
        Some(r) => r,
        None => Err(ExprError::ExpectedOperand),
    }
}

/// What the climbing loop yields from value `acc` at position `j`.
pub open spec fn spec_climb(toks: Seq<Token>, j: int, min_prec: int, acc: i32) -> ParseStep {
    match climb_with_fuel(toks, j, min_prec, acc, parse_fuel(toks)) {
        Some(r) => r,
        None => Err(ExprError::ExpectedOperand),
    }
}

/// What evaluating a whole token sequence yields: a full expression from the
/// start, after which no token may remain.
pub open spec fn spec_eval_tokens(toks: Seq<Token>) -> Result<i32, ExprError> {
    match spec_expr(toks, 0, 1) {
        Err(e) => Err(e),
        Ok((v, j)) => if j == toks.len() {
            Ok(v)
        } else {
            Err(ExprError::UnexpectedTrailingInput)
        },
    }
}

/// What evaluating a source text yields: its token sequence, evaluated.
pub open spec fn spec_evaluate(s: Seq<char>) -> Result<i32, ExprError> {
    spec_eval_tokens(spec_tokenize(s))
}

/// A defined atom result does not change when more fuel is supplied.
proof fn lemma_atom_mono(toks: Seq<Token>, i: int, f1: nat, f2: nat)
    requires
        f1 <= f2,
        atom_with_fuel(toks, i, f1) is Some,
    ensures
        atom_with_fuel(toks, i, f2) == atom_with_fuel(toks, i, f1),
    decreases f1,
{
    if 0 <= i < toks.len() && toks[i] is LeftParen {
        lemma_expr_mono(toks, i + 1, 1, (f1 - 1) as nat, (f2 - 1) as nat);
    }
}

/// A defined expression result does not change when more fuel is supplied.
proof fn lemma_expr_mono(toks: Seq<Token>, i: int, min_prec: int, f1: nat, f2: nat)
    requires
        f1 <= f2,
        expr_with_fuel(toks, i, min_prec, f1) is Some,
    ensures
        expr_with_fuel(toks, i, min_prec, f2) == expr_with_fuel(toks, i, min_prec, f1),
    decreases f1,
{
    lemma_atom_mono(toks, i, (f1 - 1) as nat, (f2 - 1) as nat);
    match atom_with_fuel(toks, i, (f1 - 1) as nat) {
        Some(Ok((v, j))) => {
            lemma_climb_mono(toks, j, min_prec, v, (f1 - 1) as nat, (f2 - 1) as nat);
        },
        _ => {},
    }
}

/// A defined climbing result does not change when more fuel is supplied.
proof fn lemma_climb_mono(toks: Seq<Token>, j: int, min_prec: int, acc: i32, f1: nat, f2: nat)
    requires
        f1 <= f2,
        climb_with_fuel(toks, j, min_prec, acc, f1) is Some,
    ensures
        climb_with_fuel(toks, j, min_prec, acc, f2) == climb_with_fuel(toks, j, min_prec, acc, f1),
    decreases f1,
{
    if 0 <= j < toks.len() && spec_is_operator(toks[j]) && spec_precedence(toks[j]) >= min_prec {
        let op = toks[j];
        let next_min = if spec_assoc(op) == ASSOC_LEFT {
            spec_precedence(op) + 1
        } else {
            spec_precedence(op)
        };
        lemma_expr_mono(toks, j + 1, next_min, (f1 - 1) as nat, (f2 - 1) as nat);
        match expr_with_fuel(toks, j + 1, next_min, (f1 - 1) as nat) {
            Some(Ok((rhs, k))) => {
                match spec_compute(op, acc, rhs) {
                    Some(v) => {
                        lemma_climb_mono(toks, k, min_prec, v, (f1 - 1) as nat, (f2 - 1) as nat);
                    },
                    None => {},
                }
            },
            _ => {},
        }
    }
}

/// With fuel `parse_fuel` to spare, an atom result is defined, and consumes
/// at least one token without passing the end.
proof fn lemma_atom_suff(toks: Seq<Token>, i: int, f: nat)
    requires
        0 <= i <= toks.len(),
        f >= 3 * (toks.len() - i) + 5,
    ensures
        atom_with_fuel(toks, i, f) is Some,
        atom_with_fuel(toks, i, f) matches Some(Ok((v, j))) ==> i + 1 <= j <= toks.len(),
    decreases toks.len() - i, 0int,
{
    if 0 <= i < toks.len() && toks[i] is LeftParen {
        lemma_expr_suff(toks, i + 1, 1, (f - 1) as nat);
    }
}

/// With fuel `parse_fuel` to spare, an expression result is defined, and
/// consumes at least one token without passing the end.
proof fn lemma_expr_suff(toks: Seq<Token>, i: int, min_prec: int, f: nat)
    requires
        0 <= i <= toks.len(),
        f >= 3 * (toks.len() - i) + 6,
    ensures
        expr_with_fuel(toks, i, min_prec, f) is Some,
        expr_with_fuel(toks, i, min_prec, f) matches Some(Ok((v, j))) ==> i + 1 <= j <= toks.len(),
    decreases toks.len() - i, 2int,
{
    lemma_atom_suff(toks, i, (f - 1) as nat);
    match atom_with_fuel(toks, i, (f - 1) as nat) {
        Some(Ok((v, j))) => {
            lemma_climb_suff(toks, j, min_prec, v, (f - 1) as nat);
        },
        _ => {},
    }
}

/// With fuel `parse_fuel` to spare, a climbing result is defined, and does
/// not move backwards or past the end.
proof fn lemma_climb_suff(toks: Seq<Token>, j: int, min_prec: int, acc: i32, f: nat)
    requires
        0 <= j <= toks.len(),
        f >= 3 * (toks.len() - j) + 4,
    ensures
        climb_with_fuel(toks, j, min_prec, acc, f) is Some,
        climb_with_fuel(toks, j, min_prec, acc, f) matches Some(Ok((v, k))) ==> j <= k
            <= toks.len(),
    decreases toks.len() - j, 1int,
{
    if 0 <= j < toks.len() && spec_is_operator(toks[j]) && spec_precedence(toks[j]) >= min_prec {
        let op = toks[j];
        let next_min = if spec_assoc(op) == ASSOC_LEFT {
            spec_precedence(op) + 1
        } else {
            spec_precedence(op)
        };
        lemma_expr_suff(toks, j + 1, next_min, (f - 1) as nat);
        match expr_with_fuel(toks, j + 1, next_min, (f - 1) as nat) {
            Some(Ok((rhs, k))) => {
                match spec_compute(op, acc, rhs) {
                    Some(v) => {
                        lemma_climb_suff(toks, k, min_prec, v, (f - 1) as nat);
                    },
                    None => {},
                }
            },
            _ => {},
        }
    }
}

/// One step of `spec_expr`: an atom, then climbing from its end.
proof fn lemma_expr_step(toks: Seq<Token>, i: int, min_prec: int)
    requires
        0 <= i <= toks.len(),
    ensures
        spec_atom(toks, i) matches Err(e) ==> spec_expr(toks, i, min_prec) == Err::<
            (i32, int),
            ExprError,
        >(e),
        spec_atom(toks, i) matches Ok((v, j)) ==> {
            &&& i + 1 <= j <= toks.len()
            &&& spec_expr(toks, i, min_prec) == spec_climb(toks, j, min_prec, v)
        },
{
    let f = parse_fuel(toks);
    lemma_expr_suff(toks, i, min_prec, f);
    lemma_atom_suff(toks, i, (f - 1) as nat);
    lemma_atom_mono(toks, i, (f - 1) as nat, f);
    match atom_with_fuel(toks, i, (f - 1) as nat) {
        Some(Ok((v, j))) => {
            lemma_climb_suff(toks, j, min_prec, v, (f - 1) as nat);
            lemma_climb_mono(toks, j, min_prec, v, (f - 1) as nat, f);
        },
        _ => {},
    }
}

/// One step of `spec_atom`: a number is consumed as is; a left parenthesis
/// wraps a full sub-expression that the matching parenthesis must follow;
/// everything else is an error.
proof fn lemma_atom_step(toks: Seq<Token>, i: int)
    requires
        0 <= i <= toks.len(),
    ensures
        i == toks.len() ==> spec_atom(toks, i) == Err::<(i32, int), ExprError>(
            ExprError::ExpectedOperand,
        ),
        i < toks.len() ==> match toks[i] {
            Token::Number(n) => spec_atom(toks, i) == Ok::<(i32, int), ExprError>((n, i + 1)),
            Token::LeftParen => {
                &&& (spec_expr(toks, i + 1, 1) matches Err(e) ==> spec_atom(toks, i) == Err::<
                    (i32, int),
                    ExprError,
                >(e))
                &&& (spec_expr(toks, i + 1, 1) matches Ok((v, j)) ==> {
                    &&& i + 2 <= j <= toks.len()
                    &&& (j < toks.len() && toks[j] is RightParen ==> spec_atom(toks, i) == Ok::<
                        (i32, int),
                        ExprError,
                    >((v, j + 1)))
                    &&& (!(j < toks.len() && toks[j] is RightParen) ==> spec_atom(toks, i)
                        == Err::<(i32, int), ExprError>(ExprError::ExpectedCloseParen))
                })
            },
            _ => spec_atom(toks, i) == Err::<(i32, int), ExprError>(ExprError::ExpectedOperand),
        },
{
    let f = parse_fuel(toks);
    lemma_atom_suff(toks, i, f);
    if 0 <= i < toks.len() && toks[i] is LeftParen {
        lemma_expr_suff(toks, i + 1, 1, (f - 1) as nat);
        lemma_expr_mono(toks, i + 1, 1, (f - 1) as nat, f);
        lemma_expr_suff(toks, i + 1, 1, f);
    }
}

/// One step of `spec_climb`: without an operator of sufficient precedence the
/// accumulated value stands; otherwise the right-hand side is an expression
/// at the operator's climbing precedence, folded in by its compute rule.
proof fn lemma_climb_step(toks: Seq<Token>, j: int, min_prec: int, acc: i32)
    requires
        0 <= j <= toks.len(),
    ensures
        (j == toks.len() || !spec_is_operator(toks[j]) || spec_precedence(toks[j]) < min_prec)
            ==> spec_climb(toks, j, min_prec, acc) == Ok::<(i32, int), ExprError>((acc, j)),
        (j < toks.len() && spec_is_operator(toks[j]) && spec_precedence(toks[j]) >= min_prec)
            ==> {
            let op = toks[j];
            let next_min = if spec_assoc(op) == ASSOC_LEFT {
                spec_precedence(op) + 1
            } else {
                spec_precedence(op)
            };
            &&& (spec_expr(toks, j + 1, next_min) matches Err(e) ==> spec_climb(
                toks,
                j,
                min_prec,
                acc,
            ) == Err::<(i32, int), ExprError>(e))
            &&& (spec_expr(toks, j + 1, next_min) matches Ok((rhs, k)) ==> {
                &&& j + 2 <= k <= toks.len()
                &&& (spec_compute(op, acc, rhs) matches Some(v) ==> spec_climb(
                    toks,
                    j,
                    min_prec,
                    acc,
                ) == spec_climb(toks, k, min_prec, v))
                &&& (spec_compute(op, acc, rhs) is None ==> spec_climb(toks, j, min_prec, acc)
                    == Err::<(i32, int), ExprError>(ExprError::ComputeFailed))
            })
        },
{
    let f = parse_fuel(toks);
    lemma_climb_suff(toks, j, min_prec, acc, f);
    if 0 <= j < toks.len() && spec_is_operator(toks[j]) && spec_precedence(toks[j]) >= min_prec {
        let op = toks[j];
        let next_min = if spec_assoc(op) == ASSOC_LEFT {
            spec_precedence(op) + 1
        } else {
            spec_precedence(op)
        };
        lemma_expr_suff(toks, j + 1, next_min, (f - 1) as nat);
        lemma_expr_mono(toks, j + 1, next_min, (f - 1) as nat, f);
        lemma_expr_suff(toks, j + 1, next_min, f);
        match expr_with_fuel(toks, j + 1, next_min, (f - 1) as nat) {
            Some(Ok((rhs, k))) => {
                match spec_compute(op, acc, rhs) {
                    Some(v) => {
                        lemma_climb_suff(toks, k, min_prec, v, (f - 1) as nat);
                        lemma_climb_mono(toks, k, min_prec, v, (f - 1) as nat, f);
                    },
                    None => {},
                }
            },
            _ => {},
        }
    }
}

/// Evaluator state: the token sequence of one source text and a cursor that
/// only moves forward. Tokens before the cursor have been consumed.
pub struct Expr {
    toks: Vec<Token>,
    pos: usize,
}

impl Expr {
    /// The cursor never passes the end of the token sequence.
    pub closed spec fn wf(self) -> bool {
        self.pos <= self.toks.len()
    }

    /// The token sequence being evaluated.
    pub closed spec fn tokens(self) -> Seq<Token> {
        self.toks@
    }

    /// Whether no token has been consumed yet.
    pub closed spec fn at_start(self) -> bool {
        self.pos == 0
    }

    /// An evaluator over the token sequence of `src`, positioned at the start.
    pub fn new(src: &str) -> (e: Expr)
        ensures
            e.wf(),
            e.at_start(),
            e.tokens() == spec_tokenize(src@),
    {
        let mut tk = Tokenizer::new(src);
        let mut toks: Vec<Token> = Vec::new();
        loop
            invariant_except_break
                toks@ + spec_tokenize(tk.remaining()) == spec_tokenize(src@),
            invariant
                tk.wf(),
            ensures
                toks@ == spec_tokenize(src@),
            decreases tk.remaining().len(),
        {
            let ghost before = tk.remaining();
            match tk.next() {
                Some(t) => {
                    toks.push(t);
                    proof {
                        assert(toks@ + spec_tokenize(tk.remaining()) =~= spec_tokenize(src@));
                    }
                },
                None => {
                    proof {
                        assert(toks@ + spec_tokenize(before) =~= toks@);
                    }
                    break ;
                },
            }
        }
        Expr { toks, pos: 0 }
    }

    /// Consume one atom: a number, or a parenthesized sub-expression.
    fn compute_atom(&mut self) -> (r: Result<i32, ExprError>)
        requires
            old(self).wf(),
        ensures
            final(self).wf(),
            final(self).toks == old(self).toks,
            old(self).pos <= final(self).pos,
            match r {
                Ok(v) => spec_atom(old(self).toks@, old(self).pos as int) == Ok::<
                    (i32, int),
                    ExprError,
                >((v, final(self).pos as int)) && old(self).pos < final(self).pos,
                Err(e) => spec_atom(old(self).toks@, old(self).pos as int) == Err::<
                    (i32, int),
                    ExprError,
                >(e),
            },
        decreases old(self).toks.len() - old(self).pos, 0int,
    {
        proof {
            lemma_atom_step(self.toks@, self.pos as int);
        }
        if self.pos >= self.toks.len() {
            return Err(ExprError::ExpectedOperand);
        }
        let t = self.toks[self.pos];
        match t {
            Token::Number(n) => {
                self.pos = self.pos + 1;
                Ok(n)
            },
            Token::LeftParen => {
                self.pos = self.pos + 1;
                match self.compute_expr(1) {
                    Ok(v) => {
                        if self.pos < self.toks.len() {
                            let t2 = self.toks[self.pos];
                            match t2 {
                                Token::RightParen => {
                                    self.pos = self.pos + 1;
                                    return Ok(v);
                                },
                                _ => {},
                            }
                        }
                        Err(ExprError::ExpectedCloseParen)
                    },
                    Err(e) => Err(e),
                }
            },
            _ => Err(ExprError::ExpectedOperand),
        }
    }

    /// Consume an expression by precedence climbing: an atom, then every
    /// following operator whose precedence reaches `min_prec`, each with its
    /// right-hand side evaluated at the operator's climbing precedence.
    fn compute_expr(&mut self, min_prec: i32) -> (r: Result<i32, ExprError>)
        requires
            old(self).wf(),
        ensures
            final(self).wf(),
            final(self).toks == old(self).toks,
            old(self).pos <= final(self).pos,
            match r {
                Ok(v) => spec_expr(old(self).toks@, old(self).pos as int, min_prec as int) == Ok::<
                    (i32, int),
                    ExprError,
                >((v, final(self).pos as int)) && old(self).pos < final(self).pos,
                Err(e) => spec_expr(old(self).toks@, old(self).pos as int, min_prec as int)
                    == Err::<(i32, int), ExprError>(e),
            },
        decreases old(self).toks.len() - old(self).pos, 1int,
    {
        proof {
            lemma_expr_step(self.toks@, self.pos as int, min_prec as int);
        }
        let ghost i0 = self.pos as int;
        let mut acc: i32;
        match self.compute_atom() {
            Ok(v) => {
                acc = v;
            },
            Err(e) => {
                return Err(e);
            },
        }
        loop
            invariant
                self.wf(),
                self.toks == old(self).toks,
                i0 == old(self).pos as int,
                i0 < self.pos as int,
                spec_expr(self.toks@, i0, min_prec as int) == spec_climb(
                    self.toks@,
                    self.pos as int,
                    min_prec as int,
                    acc,
                ),
            ensures
                self.wf(),
                self.toks == old(self).toks,
                i0 == old(self).pos as int,
                i0 < self.pos as int,
                spec_expr(self.toks@, i0, min_prec as int) == Ok::<(i32, int), ExprError>(
                    (acc, self.pos as int),
                ),
            decreases self.toks.len() - self.pos,
        {
            proof {
                lemma_climb_step(self.toks@, self.pos as int, min_prec as int, acc);
            }
            if self.pos >= self.toks.len() {
                break ;
            }
            let t = self.toks[self.pos];
            if !t.is_operator() {
                break ;
            }
            let prec = t.precedence();
            if prec < min_prec {
                break ;
            }
            let mut next_min = prec;
            if t.assoc() == ASSOC_LEFT {
                next_min = next_min + 1;
            }
            self.pos = self.pos + 1;
            let rhs: i32;
            match self.compute_expr(next_min) {
                Ok(v) => {
                    rhs = v;
                },
                Err(e) => {
                    return Err(e);
                },
            }
            match t.compute(acc, rhs) {
                Some(v) => {
                    acc = v;
                },
                None => {
                    return Err(ExprError::ComputeFailed);
                },
            }
        }
        Ok(acc)
    }

    /// Evaluate the whole token sequence to a single value. After the
    /// top-level expression, no token may remain.
    pub fn eval(&mut self) -> (r: Result<i32, ExprError>)
        requires
            old(self).wf(),
            old(self).at_start(),
        ensures
            r == spec_eval_tokens(old(self).tokens()),
    {
        let result: i32;
        match self.compute_expr(1) {
            Ok(v) => {
                result = v;
            },
            Err(e) => {
                return Err(e);
            },
        }
        if self.pos < self.toks.len() {
            return Err(ExprError::UnexpectedTrailingInput);
        }
        Ok(result)
    }
}

/// Evaluate an arithmetic expression given as text.
///
/// The result is a pure function of the source characters: evaluating the
/// same source again always yields the same value or the same error.
pub fn evaluate(src: &str) -> (r: Result<i32, ExprError>)
    ensures
        r == spec_evaluate(src@),
{
    let mut e = Expr::new(src);
    e.eval()
}

} // verus!
