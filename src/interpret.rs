use crate::expr::{AssignmentImpl, BinaryOperationImpl, Expr, FunCallImpl, NumberImpl, VariableImpl};
use crate::parser::{
    assignment_at, expect_at, expr_at, factor_at, factor_rest, number_value, primary_at, program,
    program_at, term_at, term_rest, ParseError,
};
use crate::tokenize::{Token, TokenType};
use vstd::prelude::*;
use vstd::string::*;

verus! {

/// Errors of evaluation.
#[derive(Debug, Clone, PartialEq, Eq)]
pub enum EvalError {
    /// A variable, named here, was read before any value was assigned to it.
    UndefinedVariable(String),
    /// A call of a function, named here, other than `print`.
    UndefinedFunction(String),
    /// A division whose divisor is zero.
    DivisionByZero,
    /// A result outside the range of `i32`.
    Overflow,
    /// A binary operation whose operator is not one of `+ - * /`.
    InvalidOperator(TokenType),
}

/// The variables of a run and their values; a later assignment overwrites an
/// earlier one.
pub struct Env {
    names: Vec<String>,
    values: Vec<i32>,
    bindings: Ghost<Map<Seq<char>, i32>>,
}

impl View for Env {
    type V = Map<Seq<char>, i32>;

    closed spec fn view(&self) -> Map<Seq<char>, i32> {
        self.bindings@
    }
}

impl Env {
    /// The names are distinct, and name `i` is bound to value `i`.
    pub closed spec fn wf(&self) -> bool {
        &&& self.names@.len() == self.values@.len()
        &&& forall|i: int, j: int|
            0 <= i < j < self.names@.len() ==> #[trigger] self.names@[i]@ != #[trigger] self.names@[j]@
        &&& forall|i: int|
            0 <= i < self.names@.len() ==> #[trigger] self.bindings@.contains_key(self.names@[i]@)
                && self.bindings@[self.names@[i]@] == self.values@[i]
        &&& forall|k: Seq<char>|
            #[trigger] self.bindings@.contains_key(k) ==> exists|i: int|
                0 <= i < self.names@.len() && #[trigger] self.names@[i]@ == k
    }

    /// An environment with no variables.
    pub fn new() -> (r: Env)
        ensures
            r.wf(),
            r@ == Map::<Seq<char>, i32>::empty(),
    {
        Env { names: Vec::new(), values: Vec::new(), bindings: Ghost(Map::empty()) }
    }

    fn position_of(&self, name: &String) -> (r: Option<usize>)
        requires
            self.wf(),
        ensures
            match r {
                Some(i) => i < self.names@.len() && self.names@[i as int]@ == name@,
                None => !self@.contains_key(name@),
            },
    {
        let mut i: usize = 0;
        while i < self.names.len()
            invariant
                self.wf(),
                i <= self.names@.len(),
                forall|j: int| 0 <= j < i ==> self.names@[j]@ != name@,
            decreases self.names@.len() - i,
        {
            if self.names[i] == *name {
                return Some(i);
            }
            i = i + 1;
        }
        None
    }

    /// The value bound to `name`, if any.
    pub fn get(&self, name: &String) -> (r: Option<i32>)
        requires
            self.wf(),
        ensures
            r == (if self@.contains_key(name@) {
                Some(self@[name@])
            } else {
                None::<i32>
            }),
    {
        match self.position_of(name) {
            Some(i) => Some(self.values[i]),
            None => None,
        }
    }

    /// Binds `name` to `value`, replacing any earlier binding.
    pub fn insert(&mut self, name: String, value: i32)
        requires
            old(self).wf(),
        ensures
            final(self).wf(),
            final(self)@ == old(self)@.insert(name@, value),
    {
        let ghost key = name@;
        let ghost old_env = *self;
        match self.position_of(&name) {
            Some(i) => {
                self.values.set(i, value);
                self.bindings = Ghost(self.bindings@.insert(key, value));
                assert forall|j: int| 0 <= j < self.names@.len() implies #[trigger] self.bindings@.contains_key(
                    self.names@[j]@,
                ) && self.bindings@[self.names@[j]@] == self.values@[j] by {
                    if j != i {
                        assert(old_env.bindings@.contains_key(old_env.names@[j]@));
                        if j < i {
                            assert(old_env.names@[j]@ != old_env.names@[i as int]@);
                        } else {
                            assert(old_env.names@[i as int]@ != old_env.names@[j]@);
                        }
                    }
                }
                assert forall|k: Seq<char>| #[trigger] self.bindings@.contains_key(k) implies exists|j: int|
                    0 <= j < self.names@.len() && #[trigger] self.names@[j]@ == k by {
                    if k == key {
                        assert(self.names@[i as int]@ == k);
                    } else {
                        assert(old_env.bindings@.contains_key(k));
                    }
                }
            },
            None => {
                self.names.push(name);
                self.values.push(value);
                self.bindings = Ghost(self.bindings@.insert(key, value));
                let ghost last = self.names@.len() - 1;
                assert(self.names@[last]@ == key);
                assert forall|a: int, b: int| 0 <= a < b < self.names@.len() implies #[trigger] self.names@[a]@
                    != #[trigger] self.names@[b]@ by {
                    assert(self.names@[a] == old_env.names@[a]);
                    if b == last {
                        assert(old_env.bindings@.contains_key(old_env.names@[a]@));
                    } else {
                        assert(self.names@[b] == old_env.names@[b]);
                    }
                }
                assert forall|j: int| 0 <= j < self.names@.len() implies #[trigger] self.bindings@.contains_key(
                    self.names@[j]@,
                ) && self.bindings@[self.names@[j]@] == self.values@[j] by {
                    if j != last {
                        assert(self.names@[j] == old_env.names@[j]);
                        assert(old_env.bindings@.contains_key(old_env.names@[j]@));
                    }
                }
                assert forall|k: Seq<char>| #[trigger] self.bindings@.contains_key(k) implies exists|j: int|
                    0 <= j < self.names@.len() && #[trigger] self.names@[j]@ == k by {
                    if k == key {
                        assert(self.names@[last]@ == k);
                    } else {
                        assert(old_env.bindings@.contains_key(k));
                        let j = choose|j: int| 0 <= j < old_env.names@.len() && #[trigger] old_env.names@[j]@ == k;
                        assert(self.names@[j] == old_env.names@[j]);
                    }
                }
            },
        }
    }
}

pub open spec fn magnitude(x: int) -> int {
    if x < 0 {
        -x
    } else {
        x
    }
}

/// The quotient of `a` by `b` rounded toward zero.
pub open spec fn trunc_div(a: int, b: int) -> int {
    let q = magnitude(a) / magnitude(b);
    if (a < 0) == (b < 0) {
        q
    } else {
        -q
    }
}

/// `v` as an `i32`, if it is within range.
pub open spec fn in_range(v: int) -> Result<i32, EvalError> {
    if i32::MIN <= v <= i32::MAX {
        Ok(v as i32)
    } else {
        Err(EvalError::Overflow)
    }
}

/// The result of the operator `op` on `a` and `b`.
pub open spec fn apply_op(op: TokenType, a: i32, b: i32) -> Result<i32, EvalError> {
    match op {
        TokenType::Plus => in_range(a + b),
        TokenType::Minus => in_range(a - b),
        TokenType::Star => in_range(a * b),
        TokenType::Slash => if b == 0 {
            Err(EvalError::DivisionByZero)
        } else {
            in_range(trunc_div(a as int, b as int))
        },
        _ => Err(EvalError::InvalidOperator(op)),
    }
}

pub open spec fn print_name() -> Seq<char> {
    seq!['p', 'r', 'i', 'n', 't']
}

/// Evaluating `e` with the bindings `env`, after the output `out`: the result,
/// then the bindings and the output as they are when evaluation ends (also
/// when it fails).
pub open spec fn eval(e: Expr, env: Map<Seq<char>, i32>, out: Seq<i32>) -> (
    Result<i32, EvalError>,
    Map<Seq<char>, i32>,
    Seq<i32>,
)
    decreases e,
{
    match e {
        Expr::Number(n) => (Ok(n.value), env, out),
        Expr::BinaryOperation(b) => {
            let (l, env1, out1) = eval(*b.lhs, env, out);
            match l {
                Err(err) => (Err(err), env1, out1),
                Ok(lv) => {
                    let (r, env2, out2) = eval(*b.rhs, env1, out1);
                    match r {
                        Err(err) => (Err(err), env2, out2),
                        Ok(rv) => (apply_op(b.operation.token_type, lv, rv), env2, out2),
                    }
                },
            }
        },
        Expr::Assignment(a) => {
            let (v, env1, out1) = eval(*a.value, env, out);
            match v {
                Err(err) => (Err(err), env1, out1),
                Ok(x) => (Ok(x), env1.insert(a.target.name.lexeme@, x), out1),
            }
        },
        Expr::Variable(v) => if env.contains_key(v.name.lexeme@) {
            (Ok(env[v.name.lexeme@]), env, out)
        } else {
            (Err(EvalError::UndefinedVariable(v.name.lexeme)), env, out)
        },
        Expr::FunCall(f) => if f.name.name.lexeme@ == print_name() {
            let (v, env1, out1) = eval(*f.arg, env, out);
            match v {
                Err(err) => (Err(err), env1, out1),
                Ok(x) => (Ok(x), env1, out1.push(x)),
            }
        } else {
            (Err(EvalError::UndefinedFunction(f.name.name.lexeme)), env, out)
        },
    }
}

/// Running the statements `es` from index `i` on, where `last` is the value
/// of the statement before: the value of the last statement run, then the
/// bindings and the output at the end.
pub open spec fn run_from(
    es: Seq<Expr>,
    i: int,
    env: Map<Seq<char>, i32>,
    out: Seq<i32>,
    last: Option<i32>,
) -> (Result<Option<i32>, EvalError>, Map<Seq<char>, i32>, Seq<i32>)
    decreases es.len() - i,
{
    if i < 0 || i >= es.len() {
        (Ok(last), env, out)
    } else {
        let (r, env1, out1) = eval(es[i], env, out);
        match r {
            Err(err) => (Err(err), env1, out1),
            Ok(v) => run_from(es, i + 1, env1, out1, Some(v)),
        }
    }
}

/// Running all of the statements `es`.
pub open spec fn run(es: Seq<Expr>, env: Map<Seq<char>, i32>, out: Seq<i32>) -> (
    Result<Option<i32>, EvalError>,
    Map<Seq<char>, i32>,
    Seq<i32>,
) {
    run_from(es, 0, env, out, None)
}

fn is_print(s: &String) -> (r: bool)
    ensures
        r == (s@ == print_name()),
{
    let t = s.as_str();
    if t.unicode_len() != 5 {
        return false;
    }
    let r = t.get_char(0) == 'p' && t.get_char(1) == 'r' && t.get_char(2) == 'i' && t.get_char(3)
        == 'n' && t.get_char(4) == 't';
    assert(r ==> t@ =~= print_name());
    r
}

/// The quotient of `a` by `b`, rounded toward zero; fails on a zero divisor and
/// on a quotient outside `i32`.
pub fn divide(a: i32, b: i32) -> (r: Result<i32, EvalError>)
    ensures
        r == apply_op(TokenType::Slash, a, b),
{
    if b == 0 {
        return Err(EvalError::DivisionByZero);
    }
    match a.checked_div(b) {
        Some(q) => Ok(q),
        None => Err(EvalError::Overflow),
    }
}

fn apply(op: TokenType, a: i32, b: i32) -> (r: Result<i32, EvalError>)
    ensures
        r == apply_op(op, a, b),
{
    match op {
        TokenType::Plus => match a.checked_add(b) {
            Some(v) => Ok(v),
            None => Err(EvalError::Overflow),
        },
        TokenType::Minus => match a.checked_sub(b) {
            Some(v) => Ok(v),
            None => Err(EvalError::Overflow),
        },
        TokenType::Star => match a.checked_mul(b) {
            Some(v) => Ok(v),
            None => Err(EvalError::Overflow),
        },
        TokenType::Slash => divide(a, b),
        _ => Err(EvalError::InvalidOperator(op)),
    }
}

/// Evaluates `expr`: assignments update `env`, and each `print` appends its
/// value to `output`.
pub fn evaluate(expr: &Expr, env: &mut Env, output: &mut Vec<i32>) -> (r: Result<i32, EvalError>)
    requires
        old(env).wf(),
    ensures
        final(env).wf(),
        (r, final(env)@, final(output)@) == eval(*expr, old(env)@, old(output)@),
    decreases expr,
{
    match expr {
        Expr::Number(NumberImpl { value, .. }) => Ok(*value),
        Expr::BinaryOperation(BinaryOperationImpl { lhs, operation, rhs }) => {
            let lhs_value = evaluate(lhs, env, output)?;
            let rhs_value = evaluate(rhs, env, output)?;
            apply(operation.token_type, lhs_value, rhs_value)
        },
        Expr::Assignment(AssignmentImpl { target, value }) => {
            let v = evaluate(value, env, output)?;
            env.insert(target.name.lexeme.clone(), v);
            Ok(v)
        },
        Expr::Variable(VariableImpl { name }) => match env.get(&name.lexeme) {
            Some(v) => Ok(v),
            None => Err(EvalError::UndefinedVariable(name.lexeme.clone())),
        },
        Expr::FunCall(FunCallImpl { name, arg }) => {
            if is_print(&name.name.lexeme) {
                let v = evaluate(arg, env, output)?;
                output.push(v);
                Ok(v)
            } else {
                Err(EvalError::UndefinedFunction(name.name.lexeme.clone()))
            }
        },
    }
}

/// Evaluates the statements in order, with one environment for all, and
/// stops at the first error. Returns the value of the last statement.
pub fn interpret(exprs: &Vec<Expr>, env: &mut Env, output: &mut Vec<i32>) -> (r: Result<
    Option<i32>,
    EvalError,
>)
    requires
        old(env).wf(),
    ensures
        final(env).wf(),
        (r, final(env)@, final(output)@) == run(exprs@, old(env)@, old(output)@),
{
    let mut last: Option<i32> = None;
    let mut i: usize = 0;
    while i < exprs.len()
        invariant
            env.wf(),
            i <= exprs@.len(),
            run(exprs@, old(env)@, old(output)@) == run_from(exprs@, i as int, env@, output@, last),
        decreases exprs@.len() - i,
    {
        let v = evaluate(&exprs[i], env, output)?;
        last = Some(v);
        i = i + 1;
    }
    Ok(last)
}

/// A number, an operator among `+ - * /`, and a number parse into one
/// statement, whose value is the exact sum, difference or product, or the
/// quotient rounded toward zero; a result outside `i32` is an overflow, and a
/// zero divisor is an error. Bindings and output stay as they were.
pub proof fn lemma_single_operation(
    lhs: Token,
    op: Token,
    rhs: Token,
    env: Map<Seq<char>, i32>,
    out: Seq<i32>,
)
    requires
        lhs.token_type == TokenType::NumberLiteral,
        rhs.token_type == TokenType::NumberLiteral,
        number_value(lhs.lexeme@) is Some,
        number_value(rhs.lexeme@) is Some,
        op.token_type == TokenType::Plus || op.token_type == TokenType::Minus || op.token_type
            == TokenType::Star || op.token_type == TokenType::Slash,
    ensures
        ({
            let a = number_value(lhs.lexeme@)->Some_0 as int;
            let b = number_value(rhs.lexeme@)->Some_0 as int;
            let stmts = program(seq![lhs, op, rhs]);
            &&& stmts is Ok
            &&& stmts->Ok_0.len() == 1
            &&& {
                let (r, env2, out2) = eval(stmts->Ok_0[0], env, out);
                &&& env2 == env
                &&& out2 == out
                &&& op.token_type == TokenType::Plus ==> r == in_range(a + b)
                &&& op.token_type == TokenType::Minus ==> r == in_range(a - b)
                &&& op.token_type == TokenType::Star ==> r == in_range(a * b)
                &&& op.token_type == TokenType::Slash ==> r == (if b == 0 {
                    Err(EvalError::DivisionByZero)
                } else {
                    in_range(trunc_div(a, b))
                })
            }
        }),
{
    let toks = seq![lhs, op, rhs];
    let a = number_value(lhs.lexeme@)->Some_0;
    let b = number_value(rhs.lexeme@)->Some_0;
    let ea = Expr::Number(NumberImpl { value: a, token: lhs });
    let eb = Expr::Number(NumberImpl { value: b, token: rhs });
    let e = Expr::BinaryOperation(BinaryOperationImpl { lhs: Box::new(ea), operation: op, rhs: Box::new(eb) });
    assert(primary_at(toks, 0) == Ok::<(Expr, int), ParseError>((ea, 1)));
    assert(primary_at(toks, 2) == Ok::<(Expr, int), ParseError>((eb, 3)));
    if op.token_type == TokenType::Star || op.token_type == TokenType::Slash {
        assert(factor_rest(toks, e, 3) == Ok::<(Expr, int), ParseError>((e, 3)));
        assert(factor_rest(toks, ea, 1) == Ok::<(Expr, int), ParseError>((e, 3)));
        assert(factor_at(toks, 0) == Ok::<(Expr, int), ParseError>((e, 3)));
        assert(term_rest(toks, e, 3) == Ok::<(Expr, int), ParseError>((e, 3)));
    } else {
        assert(factor_rest(toks, ea, 1) == Ok::<(Expr, int), ParseError>((ea, 1)));
        assert(factor_at(toks, 0) == Ok::<(Expr, int), ParseError>((ea, 1)));
        assert(factor_rest(toks, eb, 3) == Ok::<(Expr, int), ParseError>((eb, 3)));
        assert(factor_at(toks, 2) == Ok::<(Expr, int), ParseError>((eb, 3)));
        assert(term_rest(toks, e, 3) == Ok::<(Expr, int), ParseError>((e, 3)));
        assert(term_rest(toks, ea, 1) == Ok::<(Expr, int), ParseError>((e, 3)));
    }
    assert(term_at(toks, 0) == Ok::<(Expr, int), ParseError>((e, 3)));
    assert(assignment_at(toks, 0) == Ok::<(Expr, int), ParseError>((e, 3)));
    assert(expr_at(toks, 0) == Ok::<(Expr, int), ParseError>((e, 3)));
    assert(expect_at(toks, TokenType::NewLine, 3) == Ok::<int, ParseError>(3));
    assert(program_at(toks, 3) == Ok::<Seq<Expr>, ParseError>(Seq::empty()));
    assert(seq![e] + Seq::<Expr>::empty() =~= seq![e]);
    assert(program(toks) == Ok::<Seq<Expr>, ParseError>(seq![e]));
    assert(eval(ea, env, out) == (Ok::<i32, EvalError>(a), env, out));
    assert(eval(eb, env, out) == (Ok::<i32, EvalError>(b), env, out));
}

/// Reading a variable that has no binding fails, and changes nothing.
pub proof fn lemma_undefined_variable(v: VariableImpl, env: Map<Seq<char>, i32>, out: Seq<i32>)
    requires
        !env.contains_key(v.name.lexeme@),
    ensures
        eval(Expr::Variable(v), env, out) == (
            Err::<i32, EvalError>(EvalError::UndefinedVariable(v.name.lexeme)),
            env,
            out,
        ),
{
}

/// A division whose divisor evaluates to zero fails, whatever the dividend.
pub proof fn lemma_division_by_zero(
    lhs: Expr,
    op: Token,
    rhs: Expr,
    env: Map<Seq<char>, i32>,
    out: Seq<i32>,
)
    requires
        op.token_type == TokenType::Slash,
        ({
            let (l, env1, out1) = eval(lhs, env, out);
            l is Ok && eval(rhs, env1, out1).0 == Ok::<i32, EvalError>(0)
        }),
    ensures
        eval(
            Expr::BinaryOperation(
                BinaryOperationImpl { lhs: Box::new(lhs), operation: op, rhs: Box::new(rhs) },
            ),
            env,
            out,
        ).0 == Err::<i32, EvalError>(EvalError::DivisionByZero),
{
}

/// A call of any function but `print` fails without evaluating its argument.
pub proof fn lemma_undefined_function(f: FunCallImpl, env: Map<Seq<char>, i32>, out: Seq<i32>)
    requires
        f.name.name.lexeme@ != print_name(),
    ensures
        eval(Expr::FunCall(f), env, out) == (
            Err::<i32, EvalError>(EvalError::UndefinedFunction(f.name.name.lexeme)),
            env,
            out,
        ),
{
}

/// An assignment returns the value it assigns, and binds its target to that
/// value, overwriting any earlier binding.
pub proof fn lemma_assignment_returns_value(
    a: AssignmentImpl,
    env: Map<Seq<char>, i32>,
    out: Seq<i32>,
)
    requires
        eval(*a.value, env, out).0 is Ok,
    ensures
        ({
            let (v, env1, out1) = eval(*a.value, env, out);
            eval(Expr::Assignment(a), env, out) == (
                v,
                env1.insert(a.target.name.lexeme@, v->Ok_0),
                out1,
            )
        }),
{
}

} // verus!
