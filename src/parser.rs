use crate::expr::{AssignmentImpl, BinaryOperationImpl, Expr, FunCallImpl, NumberImpl, VariableImpl};
use crate::tokenize::{is_decimal_digit, Token, TokenType};
use vstd::prelude::*;
use vstd::string::*;

verus! {

/// Errors of the parser.
#[derive(Debug, Clone, Copy, PartialEq, Eq, Structural)]
pub enum ParseError {
    /// A token of kind `expected` was required, and one of kind `found` stood there.
    Expected { expected: TokenType, found: TokenType },
    /// A token that cannot start an operand.
    UnexpectedToken(TokenType),
    /// The tokens ended where an operand was required.
    UnexpectedEnd,
    /// A numeric literal that is not a decimal number within the range of `i32`.
    InvalidNumber,
}

pub open spec fn digit_value(c: char) -> int {
    c as int - '0' as int
}

/// The number that the decimal digits `s` write.
pub open spec fn decimal_value(s: Seq<char>) -> int
    decreases s.len(),
{
    if s.len() == 0 {
        0
    } else {
        decimal_value(s.drop_last()) * 10 + digit_value(s.last())
    }
}

pub open spec fn all_digits(s: Seq<char>) -> bool {
    forall|i: int| 0 <= i < s.len() ==> is_decimal_digit(#[trigger] s[i])
}

/// The value of a numeric literal: a non-empty run of decimal digits whose
/// value fits in `i32`.
pub open spec fn number_value(s: Seq<char>) -> Option<i32> {
    if s.len() > 0 && all_digits(s) && decimal_value(s) <= i32::MAX {
        Some(decimal_value(s) as i32)
    } else {
        None
    }
}

/// The position after a token of kind `expected` at `pos`, which must be
/// there.
pub open spec fn require_at(toks: Seq<Token>, expected: TokenType, pos: int) -> Result<int, ParseError> {
    if pos < 0 || pos >= toks.len() {
        Err(ParseError::UnexpectedEnd)
    } else if toks[pos].token_type == expected {
        Ok(pos + 1)
    } else {
        Err(ParseError::Expected { expected, found: toks[pos].token_type })
    }
}

/// The position after a token of kind `expected` at `pos`. At the end of the
/// tokens nothing is required: this is how the newline after the last
/// statement may be left out.
pub open spec fn expect_at(toks: Seq<Token>, expected: TokenType, pos: int) -> Result<int, ParseError> {
    if pos >= toks.len() {
        Ok(pos)
    } else if toks[pos].token_type == expected {
        Ok(pos + 1)
    } else {
        Err(ParseError::Expected { expected, found: toks[pos].token_type })
    }
}

pub open spec fn is_additive(t: TokenType) -> bool {
    t == TokenType::Plus || t == TokenType::Minus
}

pub open spec fn is_multiplicative(t: TokenType) -> bool {
    t == TokenType::Star || t == TokenType::Slash
}

/// `expr := assignment`, from position `pos`: the tree and the position after it.
pub open spec fn expr_at(toks: Seq<Token>, pos: int) -> Result<(Expr, int), ParseError>
    decreases toks.len() - pos, 5int,
{
    assignment_at(toks, pos)
}

/// `assignment := IDENTIFIER "=" assignment | term`; an assignment is told by
/// the `=` after its first token.
pub open spec fn assignment_at(toks: Seq<Token>, pos: int) -> Result<(Expr, int), ParseError>
    decreases toks.len() - pos, 4int,
{
    if 0 <= pos && pos + 1 < toks.len() && toks[pos + 1].token_type == TokenType::Equal {
        if toks[pos].token_type != TokenType::Identifier {
            Err(
                ParseError::Expected {
                    expected: TokenType::Identifier,
                    found: toks[pos].token_type,
                },
            )
        } else {
            match expr_at(toks, pos + 2) {
                Ok((value, p)) => Ok(
                    (
                        Expr::Assignment(
                            AssignmentImpl {
                                target: VariableImpl { name: toks[pos] },
                                value: Box::new(value),
                            },
                        ),
                        p,
                    ),
                ),
                Err(e) => Err(e),
            }
        }
    } else {
        term_at(toks, pos)
    }
}

/// `term := factor (("+"|"-") factor)*`, folded to the left.
pub open spec fn term_at(toks: Seq<Token>, pos: int) -> Result<(Expr, int), ParseError>
    decreases toks.len() - pos, 3int,
{
    match factor_at(toks, pos) {
        Ok((lhs, p)) => if pos < p <= toks.len() {
            term_rest(toks, lhs, p)
        } else {
            Ok((lhs, p))
        },
        Err(e) => Err(e),
    }
}

/// The rest of a term whose operands up to `pos` have been folded into `lhs`.
/// The guard `pos < p` always holds (`lemma_term_rest_advances`); it shows
/// that the recursion ends.
pub open spec fn term_rest(toks: Seq<Token>, lhs: Expr, pos: int) -> Result<(Expr, int), ParseError>
    decreases toks.len() - pos, 2int,
{
    if 0 <= pos < toks.len() && is_additive(toks[pos].token_type) {
        match factor_at(toks, pos + 1) {
            Ok((rhs, p)) => {
                let e = Expr::BinaryOperation(
                    BinaryOperationImpl {
                        lhs: Box::new(lhs),
                        operation: toks[pos],
                        rhs: Box::new(rhs),
                    },
                );
                if pos < p <= toks.len() {
                    term_rest(toks, e, p)
                } else {
                    Ok((e, p))
                }
            },
            Err(e) => Err(e),
        }
    } else {
        Ok((lhs, pos))
    }
}

/// `factor := primary (("*"|"/") primary)*`, folded to the left.
pub open spec fn factor_at(toks: Seq<Token>, pos: int) -> Result<(Expr, int), ParseError>
    decreases toks.len() - pos, 1int,
{
    match primary_at(toks, pos) {
        Ok((lhs, p)) => if pos < p <= toks.len() {
            factor_rest(toks, lhs, p)
        } else {
            Ok((lhs, p))
        },
        Err(e) => Err(e),
    }
}

/// The rest of a factor whose operands up to `pos` have been folded into
/// `lhs`. An operator that is the very last token ends the factor.
pub open spec fn factor_rest(toks: Seq<Token>, lhs: Expr, pos: int) -> Result<(Expr, int), ParseError>
    decreases toks.len() - pos, 1int,
{
    if 0 <= pos && pos + 1 < toks.len() && is_multiplicative(toks[pos].token_type) {
        match primary_at(toks, pos + 1) {
            Ok((rhs, p)) => {
                let e = Expr::BinaryOperation(
                    BinaryOperationImpl {
                        lhs: Box::new(lhs),
                        operation: toks[pos],
                        rhs: Box::new(rhs),
                    },
                );
                if pos < p <= toks.len() {
                    factor_rest(toks, e, p)
                } else {
                    Ok((e, p))
                }
            },
            Err(e) => Err(e),
        }
    } else {
        Ok((lhs, pos))
    }
}

/// `primary := NUMBER | IDENTIFIER "(" expr ")" | IDENTIFIER | "(" expr ")"`.
pub open spec fn primary_at(toks: Seq<Token>, pos: int) -> Result<(Expr, int), ParseError>
    decreases toks.len() - pos, 0int,
{
    if pos < 0 || pos >= toks.len() {
        Err(ParseError::UnexpectedEnd)
    } else {
        let t = toks[pos];
        if t.token_type == TokenType::NumberLiteral {
            match number_value(t.lexeme@) {
                Some(v) => Ok((Expr::Number(NumberImpl { value: v, token: t }), pos + 1)),
                None => Err(ParseError::InvalidNumber),
            }
        } else if t.token_type == TokenType::Identifier {
            if pos + 1 < toks.len() && toks[pos + 1].token_type == TokenType::LeftParen {
                match expr_at(toks, pos + 2) {
                    Ok((arg, p)) => match require_at(toks, TokenType::RightParen, p) {
                        Ok(q) => Ok(
                            (
                                Expr::FunCall(
                                    FunCallImpl { name: VariableImpl { name: t }, arg: Box::new(arg) },
                                ),
                                q,
                            ),
                        ),
                        Err(e) => Err(e),
                    },
                    Err(e) => Err(e),
                }
            } else {
                Ok((Expr::Variable(VariableImpl { name: t }), pos + 1))
            }
        } else if t.token_type == TokenType::LeftParen {
            match expr_at(toks, pos + 1) {
                Ok((e, p)) => match require_at(toks, TokenType::RightParen, p) {
                    Ok(q) => Ok((e, q)),
                    Err(err) => Err(err),
                },
                Err(err) => Err(err),
            }
        } else {
            Err(ParseError::UnexpectedToken(t.token_type))
        }
    }
}

/// `program := (statement NEWLINE)*`, from position `pos`; the newline after
/// the last statement may be missing.
pub open spec fn program_at(toks: Seq<Token>, pos: int) -> Result<Seq<Expr>, ParseError>
    decreases toks.len() - pos,
{
    if pos < 0 || pos >= toks.len() {
        Ok(Seq::empty())
    } else {
        match expr_at(toks, pos) {
            Ok((e, p)) => match expect_at(toks, TokenType::NewLine, p) {
                Ok(q) => if pos < q <= toks.len() {
                    match program_at(toks, q) {
                        Ok(rest) => Ok(seq![e] + rest),
                        Err(err) => Err(err),
                    }
                } else {
                    Ok(seq![e])
                },
                Err(err) => Err(err),
            },
            Err(err) => Err(err),
        }
    }
}

/// The statements that the tokens `toks` make.
pub open spec fn program(toks: Seq<Token>) -> Result<Seq<Expr>, ParseError> {
    program_at(toks, 0)
}

/// `r`, ending at `end`, is the result `s` of a parsing function.
pub open spec fn parsed_as(r: Result<Expr, ParseError>, end: int, s: Result<(Expr, int), ParseError>) -> bool {
    match r {
        Ok(e) => s == Ok::<(Expr, int), ParseError>((e, end)),
        Err(err) => s == Err::<(Expr, int), ParseError>(err),
    }
}

/// An operand always ends after its start, and within the tokens.
pub open spec fn advanced(r: Result<Expr, ParseError>, start: int, end: int, len: int) -> bool {
    r is Ok ==> start < end <= len
}

fn copy_token(t: &Token) -> (r: Token)
    ensures
        r == *t,
{
    Token { token_type: t.token_type, lexeme: t.lexeme.clone() }
}

proof fn lemma_decimal_value_prefix(s: Seq<char>, k: int)
    requires
        0 <= k <= s.len(),
        all_digits(s),
    ensures
        decimal_value(s.subrange(0, k)) <= decimal_value(s),
    decreases s.len(),
{
    if k < s.len() {
        assert(s.drop_last() =~= s.subrange(0, s.len() - 1));
        assert(s.subrange(0, k) =~= s.drop_last().subrange(0, k));
        lemma_decimal_value_prefix(s.drop_last(), k);
        assert(decimal_value(s.drop_last()) >= 0) by {
            lemma_decimal_value_nonneg(s.drop_last());
        }
    } else {
        assert(s.subrange(0, k) =~= s);
    }
}

proof fn lemma_decimal_value_nonneg(s: Seq<char>)
    requires
        all_digits(s),
    ensures
        decimal_value(s) >= 0,
    decreases s.len(),
{
    if s.len() > 0 {
        lemma_decimal_value_nonneg(s.drop_last());
    }
}

/// The value of the numeric literal `s`, if it is a non-empty run of decimal
/// digits whose value fits in `i32`.
fn parse_number(s: &str) -> (r: Option<i32>)
    ensures
        r == number_value(s@),
{
    let n = s.unicode_len();
    if n == 0 {
        return None;
    }
    let mut value: u64 = 0;
    let mut i: usize = 0;
    while i < n
        invariant
            n == s@.len(),
            i <= n,
            all_digits(s@.subrange(0, i as int)),
            value == decimal_value(s@.subrange(0, i as int)),
            value <= i32::MAX,
        decreases n - i,
    {
        let c = s.get_char(i);
        assert(s@.subrange(0, i as int + 1).drop_last() =~= s@.subrange(0, i as int));
        if !('0' <= c && c <= '9') {
            assert(!all_digits(s@));
            return None;
        }
        let d = (c as u32 - '0' as u32) as u64;
        value = value * 10 + d;
        i = i + 1;
        assert(all_digits(s@.subrange(0, i as int))) by {
            assert forall|j: int| 0 <= j < i implies is_decimal_digit(
                #[trigger] s@.subrange(0, i as int)[j],
            ) by {
                if j < i - 1 {
                    assert(s@.subrange(0, i as int)[j] == s@.subrange(0, i as int - 1)[j]);
                }
            }
        }
        if value > 2147483647 {
            proof {
                if all_digits(s@) {
                    lemma_decimal_value_prefix(s@, i as int);
                }
            }
            return None;
        }
    }
    assert(s@.subrange(0, n as int) =~= s@);
    Some(value as i32)
}

/// Consumes a token of kind `expected` at `pos`, failing when there is none.
pub fn require(expected: TokenType, tokens: &Vec<Token>, pos: &mut usize) -> (r: Result<(), ParseError>)
    requires
        *old(pos) <= tokens@.len(),
    ensures
        match r {
            Ok(()) => require_at(tokens@, expected, *old(pos) as int) == Ok::<int, ParseError>(
                *final(pos) as int,
            ),
            Err(e) => require_at(tokens@, expected, *old(pos) as int) == Err::<int, ParseError>(e),
        },
        *old(pos) <= *final(pos) <= tokens@.len(),
{
    if *pos >= tokens.len() {
        return Err(ParseError::UnexpectedEnd);
    }
    let found = tokens[*pos].token_type;
    if found != expected {
        return Err(ParseError::Expected { expected, found });
    }
    *pos = *pos + 1;
    Ok(())
}

/// Consumes a token of kind `expected` at `pos`; at the end of the tokens
/// there is nothing to consume and nothing is required.
pub fn expect(expected: TokenType, tokens: &Vec<Token>, pos: &mut usize) -> (r: Result<(), ParseError>)
    requires
        *old(pos) <= tokens@.len(),
    ensures
        match r {
            Ok(()) => expect_at(tokens@, expected, *old(pos) as int) == Ok::<int, ParseError>(
                *final(pos) as int,
            ),
            Err(e) => expect_at(tokens@, expected, *old(pos) as int) == Err::<int, ParseError>(e),
        },
        *old(pos) <= *final(pos) <= tokens@.len(),
{
    if *pos >= tokens.len() {
        return Ok(());
    }
    let found = tokens[*pos].token_type;
    if found != expected {
        return Err(ParseError::Expected { expected, found });
    }
    *pos = *pos + 1;
    Ok(())
}

/// Parses an expression starting at `pos`, and moves `pos` past it.
pub fn parse_expr(tokens: &Vec<Token>, pos: &mut usize) -> (r: Result<Expr, ParseError>)
    requires
        *old(pos) <= tokens@.len(),
    ensures
        parsed_as(r, *final(pos) as int, expr_at(tokens@, *old(pos) as int)),
        advanced(r, *old(pos) as int, *final(pos) as int, tokens@.len() as int),
    decreases tokens@.len() - *old(pos), 5int,
{
    parse_assignment(tokens, pos)
}

/// Parses an assignment, or else a term, starting at `pos`.
pub fn parse_assignment(tokens: &Vec<Token>, pos: &mut usize) -> (r: Result<Expr, ParseError>)
    requires
        *old(pos) <= tokens@.len(),
    ensures
        parsed_as(r, *final(pos) as int, assignment_at(tokens@, *old(pos) as int)),
        advanced(r, *old(pos) as int, *final(pos) as int, tokens@.len() as int),
    decreases tokens@.len() - *old(pos), 4int,
{
    if tokens.len() - *pos > 1 && tokens[*pos + 1].token_type == TokenType::Equal {
        let variable = parse_variable(tokens, pos)?;
        *pos = *pos + 1;
        let value = parse_expr(tokens, pos)?;
        Ok(Expr::Assignment(AssignmentImpl { target: variable, value: Box::new(value) }))
    } else {
        parse_term(tokens, pos)
    }
}

/// Takes the identifier at `pos` as a variable.
pub fn parse_variable(tokens: &Vec<Token>, pos: &mut usize) -> (r: Result<VariableImpl, ParseError>)
    requires
        *old(pos) <= tokens@.len(),
    ensures
        *old(pos) == tokens@.len() ==> r == Err::<VariableImpl, ParseError>(ParseError::UnexpectedEnd),
        *old(pos) < tokens@.len() ==> match r {
            Ok(v) => tokens@[*old(pos) as int].token_type == TokenType::Identifier && v == (
            VariableImpl { name: tokens@[*old(pos) as int] }) && *final(pos) == *old(pos) + 1,
            Err(e) => tokens@[*old(pos) as int].token_type != TokenType::Identifier && e == (
            ParseError::Expected {
                expected: TokenType::Identifier,
                found: tokens@[*old(pos) as int].token_type,
            }),
        },
{
    if *pos >= tokens.len() {
        return Err(ParseError::UnexpectedEnd);
    }
    let at = *pos;
    let token = &tokens[at];
    if token.token_type == TokenType::Identifier {
        *pos = at + 1;
        Ok(VariableImpl { name: copy_token(token) })
    } else {
        Err(ParseError::Expected { expected: TokenType::Identifier, found: token.token_type })
    }
}

/// Parses a sum or difference of factors, folded to the left.
pub fn parse_term(tokens: &Vec<Token>, pos: &mut usize) -> (r: Result<Expr, ParseError>)
    requires
        *old(pos) <= tokens@.len(),
    ensures
        parsed_as(r, *final(pos) as int, term_at(tokens@, *old(pos) as int)),
        advanced(r, *old(pos) as int, *final(pos) as int, tokens@.len() as int),
    decreases tokens@.len() - *old(pos), 3int,
{
    let ghost start = *pos as int;
    let mut result = parse_factor(tokens, pos)?;
    while *pos < tokens.len()
        invariant_except_break
            start == *old(pos),
            start < *pos <= tokens@.len(),
            term_at(tokens@, start) == term_rest(tokens@, result, *pos as int),
        ensures
            start < *pos <= tokens@.len(),
            parsed_as(Ok(result), *pos as int, term_at(tokens@, start)),
        decreases tokens@.len() - *pos,
    {
        let kind = tokens[*pos].token_type;
        if kind == TokenType::Plus || kind == TokenType::Minus {
            let op_token = copy_token(&tokens[*pos]);
            *pos = *pos + 1;
            let rhs = parse_factor(tokens, pos)?;
            result = Expr::BinaryOperation(
                BinaryOperationImpl { lhs: Box::new(result), operation: op_token, rhs: Box::new(rhs) },
            );
        } else {
            break;
        }
    }
    Ok(result)
}

/// Parses a product or quotient of primaries, folded to the left.
pub fn parse_factor(tokens: &Vec<Token>, pos: &mut usize) -> (r: Result<Expr, ParseError>)
    requires
        *old(pos) <= tokens@.len(),
    ensures
        parsed_as(r, *final(pos) as int, factor_at(tokens@, *old(pos) as int)),
        advanced(r, *old(pos) as int, *final(pos) as int, tokens@.len() as int),
    decreases tokens@.len() - *old(pos), 1int,
{
    let ghost start = *pos as int;
    let mut result = parse_primary(tokens, pos)?;
    while tokens.len() - *pos > 1
        invariant_except_break
            start == *old(pos),
            start < *pos <= tokens@.len(),
            factor_at(tokens@, start) == factor_rest(tokens@, result, *pos as int),
        ensures
            start < *pos <= tokens@.len(),
            parsed_as(Ok(result), *pos as int, factor_at(tokens@, start)),
        decreases tokens@.len() - *pos,
    {
        let kind = tokens[*pos].token_type;
        if kind == TokenType::Star || kind == TokenType::Slash {
            let op_token = copy_token(&tokens[*pos]);
            *pos = *pos + 1;
            let rhs = parse_primary(tokens, pos)?;
            result = Expr::BinaryOperation(
                BinaryOperationImpl { lhs: Box::new(result), operation: op_token, rhs: Box::new(rhs) },
            );
        } else {
            break;
        }
    }
    Ok(result)
}

/// Parses a number, a call, a variable or a parenthesised expression.
pub fn parse_primary(tokens: &Vec<Token>, pos: &mut usize) -> (r: Result<Expr, ParseError>)
    requires
        *old(pos) <= tokens@.len(),
    ensures
        parsed_as(r, *final(pos) as int, primary_at(tokens@, *old(pos) as int)),
        advanced(r, *old(pos) as int, *final(pos) as int, tokens@.len() as int),
    decreases tokens@.len() - *old(pos), 0int,
{
    if *pos >= tokens.len() {
        return Err(ParseError::UnexpectedEnd);
    }
    let token = &tokens[*pos];
    *pos = *pos + 1;
    match token.token_type {
        TokenType::NumberLiteral => {
            match parse_number(token.lexeme.as_str()) {
                Some(value) => Ok(Expr::Number(NumberImpl { value, token: copy_token(token) })),
                None => Err(ParseError::InvalidNumber),
            }
        },
        TokenType::Identifier => {
            if *pos < tokens.len() && tokens[*pos].token_type == TokenType::LeftParen {
                let fun_name = VariableImpl { name: copy_token(token) };
                *pos = *pos + 1;
                let arg = parse_expr(tokens, pos)?;
                require(TokenType::RightParen, tokens, pos)?;
                Ok(Expr::FunCall(FunCallImpl { name: fun_name, arg: Box::new(arg) }))
            } else {
                Ok(Expr::Variable(VariableImpl { name: copy_token(token) }))
            }
        },
        TokenType::LeftParen => {
            let expr = parse_expr(tokens, pos)?;
            require(TokenType::RightParen, tokens, pos)?;
            Ok(expr)
        },
        t => Err(ParseError::UnexpectedToken(t)),
    }
}

/// Parses the whole token sequence into statements, each ended by a newline
/// (the last one may end with the tokens instead).
pub fn parse(tokens: Vec<Token>) -> (r: Result<Vec<Expr>, ParseError>)
    ensures
        match r {
            Ok(es) => program(tokens@) == Ok::<Seq<Expr>, ParseError>(es@),
            Err(e) => program(tokens@) == Err::<Seq<Expr>, ParseError>(e),
        },
{
    let mut result: Vec<Expr> = Vec::new();
    let mut pos: usize = 0;
    while pos < tokens.len()
        invariant
            pos <= tokens@.len(),
            program(tokens@) == match program_at(tokens@, pos as int) {
                Ok(rest) => Ok(result@ + rest),
                Err(e) => Err(e),
            },
        decreases tokens@.len() - pos,
    {
        let ghost start = pos as int;
        let ghost before = result@;
        let expr = parse_expr(&tokens, &mut pos)?;
        expect(TokenType::NewLine, &tokens, &mut pos)?;
        result.push(expr);
        proof {
            match program_at(tokens@, pos as int) {
                Ok(rest) => {
                    assert(before + (seq![expr] + rest) =~= result@ + rest);
                },
                Err(e) => {},
            }
        }
    }
    assert(result@ + Seq::<Expr>::empty() =~= result@);
    Ok(result)
}

/// A successful parse `r` ends at a position in `lo..=hi`.
pub open spec fn ends_in(r: Result<(Expr, int), ParseError>, lo: int, hi: int) -> bool {
    r is Ok ==> lo <= r->Ok_0.1 <= hi
}

/// An expression that parses ends after its start and within the tokens; so
/// do assignments, terms, factors and primaries (the lemmas below), and the
/// guards on the recursion of `term_rest`, `factor_rest` and `program_at`
/// always hold.
pub proof fn lemma_expr_advances(toks: Seq<Token>, pos: int)
    requires
        0 <= pos <= toks.len(),
    ensures
        ends_in(expr_at(toks, pos), pos + 1, toks.len() as int),
    decreases toks.len() - pos, 5int,
{
    lemma_assignment_advances(toks, pos);
}

pub proof fn lemma_assignment_advances(toks: Seq<Token>, pos: int)
    requires
        0 <= pos <= toks.len(),
    ensures
        ends_in(assignment_at(toks, pos), pos + 1, toks.len() as int),
    decreases toks.len() - pos, 4int,
{
    if pos + 1 < toks.len() && toks[pos + 1].token_type == TokenType::Equal {
        lemma_expr_advances(toks, pos + 2);
    } else {
        lemma_term_advances(toks, pos);
    }
}

pub proof fn lemma_term_advances(toks: Seq<Token>, pos: int)
    requires
        0 <= pos <= toks.len(),
    ensures
        ends_in(term_at(toks, pos), pos + 1, toks.len() as int),
    decreases toks.len() - pos, 3int,
{
    lemma_factor_advances(toks, pos);
    if let Ok((lhs, p)) = factor_at(toks, pos) {
        lemma_term_rest_advances(toks, lhs, p);
    }
}

pub proof fn lemma_term_rest_advances(toks: Seq<Token>, lhs: Expr, pos: int)
    requires
        0 <= pos <= toks.len(),
    ensures
        ends_in(term_rest(toks, lhs, pos), pos, toks.len() as int),
    decreases toks.len() - pos, 2int,
{
    if pos < toks.len() && is_additive(toks[pos].token_type) {
        lemma_factor_advances(toks, pos + 1);
        if let Ok((rhs, p)) = factor_at(toks, pos + 1) {
            let e = Expr::BinaryOperation(
                BinaryOperationImpl { lhs: Box::new(lhs), operation: toks[pos], rhs: Box::new(rhs) },
            );
            lemma_term_rest_advances(toks, e, p);
        }
    }
}

pub proof fn lemma_factor_advances(toks: Seq<Token>, pos: int)
    requires
        0 <= pos <= toks.len(),
    ensures
        ends_in(factor_at(toks, pos), pos + 1, toks.len() as int),
    decreases toks.len() - pos, 1int,
{
    lemma_primary_advances(toks, pos);
    if let Ok((lhs, p)) = primary_at(toks, pos) {
        lemma_factor_rest_advances(toks, lhs, p);
    }
}

pub proof fn lemma_factor_rest_advances(toks: Seq<Token>, lhs: Expr, pos: int)
    requires
        0 <= pos <= toks.len(),
    ensures
        ends_in(factor_rest(toks, lhs, pos), pos, toks.len() as int),
    decreases toks.len() - pos, 1int,
{
    if pos + 1 < toks.len() && is_multiplicative(toks[pos].token_type) {
        lemma_primary_advances(toks, pos + 1);
        if let Ok((rhs, p)) = primary_at(toks, pos + 1) {
            let e = Expr::BinaryOperation(
                BinaryOperationImpl { lhs: Box::new(lhs), operation: toks[pos], rhs: Box::new(rhs) },
            );
            lemma_factor_rest_advances(toks, e, p);
        }
    }
}

pub proof fn lemma_primary_advances(toks: Seq<Token>, pos: int)
    requires
        0 <= pos <= toks.len(),
    ensures
        ends_in(primary_at(toks, pos), pos + 1, toks.len() as int),
    decreases toks.len() - pos, 0int,
{
    if pos < toks.len() {
        let t = toks[pos];
        if t.token_type == TokenType::Identifier && pos + 1 < toks.len() && toks[pos + 1].token_type
            == TokenType::LeftParen {
            lemma_expr_advances(toks, pos + 2);
        } else if t.token_type == TokenType::LeftParen {
            lemma_expr_advances(toks, pos + 1);
        }
    }
}

} // verus!
