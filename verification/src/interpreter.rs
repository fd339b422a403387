//! The interpreter: runs a program against a table of variables.
//!
//! Values are 64-bit signed integers. Addition, subtraction, multiplication
//! and division wrap around on overflow (two's complement), so the only
//! failures of a run are a read of a name that is not bound and a division by
//! zero. A comparison gives 1 where it holds and 0 where it does not.

use vstd::prelude::*;
use vstd::string::*;
use crate::ast::{Expr, ExprView, Operator, Program, Statement, StatementView};
use crate::environment::{binding_views, lists, lookup, Binding, Environment};
use crate::text::{format_i64, signed_decimal};

verus! {

/// Why a run failed.
#[derive(Debug, Clone, PartialEq)]
pub enum RuntimeError {
    /// A name was read that no earlier statement had bound.
    UndefinedVariable(String),
    /// The right operand of a division was zero.
    DivisionByZero,
}

/// The mathematical value of a [`RuntimeError`].
pub enum RuntimeErrorView {
    UndefinedVariable(Seq<char>),
    DivisionByZero,
}

impl View for RuntimeError {
    type V = RuntimeErrorView;

    open spec fn view(&self) -> RuntimeErrorView {
        match self {
            RuntimeError::UndefinedVariable(name) => RuntimeErrorView::UndefinedVariable(name@),
            RuntimeError::DivisionByZero => RuntimeErrorView::DivisionByZero,
        }
    }
}

/// The text of an error.
pub open spec fn message_of(error: RuntimeErrorView) -> Seq<char> {
    match error {
        RuntimeErrorView::UndefinedVariable(name) => "Undefined variable: "@ + name,
        RuntimeErrorView::DivisionByZero => "Division by zero"@,
    }
}

impl RuntimeError {
    /// The error as one line of text.
    pub fn message(&self) -> (text: String)
        ensures
            text@ == message_of(self@),
    {
        match self {
            RuntimeError::UndefinedVariable(name) => String::from_str(
                "Undefined variable: ",
            ).concat(name.as_str()),
            RuntimeError::DivisionByZero => String::from_str("Division by zero"),
        }
    }
}

/// The variables of a run: a finite map from names to values.
pub type Bindings = Map<Seq<char>, i64>;

/// The `i64` that is congruent to `n` modulo 2^64.
pub open spec fn wrapped(n: int) -> i64 {
    let m = n % 0x1_0000_0000_0000_0000;
    if m > i64::MAX {
        (m - 0x1_0000_0000_0000_0000) as i64
    } else {
        m as i64
    }
}

/// The quotient of `l` by `r`, rounded towards zero; `r` is not 0.
pub open spec fn quotient(l: int, r: int) -> int {
    if l >= 0 && r > 0 {
        l / r
    } else if l >= 0 {
        -(l / (-r))
    } else if r > 0 {
        -((-l) / r)
    } else {
        (-l) / (-r)
    }
}

/// 1 for true, 0 for false.
pub open spec fn truth(holds: bool) -> i64 {
    if holds {
        1
    } else {
        0
    }
}

/// What `operator` gives on the operands `l` and `r`.
pub open spec fn apply(operator: Operator, l: i64, r: i64) -> Result<i64, RuntimeErrorView> {
    match operator {
        Operator::Plus => Ok(wrapped(l + r)),
        Operator::Minus => Ok(wrapped(l - r)),
        Operator::Multiply => Ok(wrapped(l * r)),
        Operator::Divide => if r == 0 {
            Err(RuntimeErrorView::DivisionByZero)
        } else {
            Ok(wrapped(quotient(l as int, r as int)))
        },
        Operator::Eq => Ok(truth(l == r)),
        Operator::NotEq => Ok(truth(l != r)),
        Operator::Gt => Ok(truth(l > r)),
        Operator::Lt => Ok(truth(l < r)),
        Operator::GtEq => Ok(truth(l >= r)),
        Operator::LtEq => Ok(truth(l <= r)),
    }
}

/// The value of `expr` under `env`. Of a binary operation the left operand
/// is evaluated first, then the right one, then the operator is applied; the
/// first failure is the result.
pub open spec fn eval(expr: ExprView, env: Bindings) -> Result<i64, RuntimeErrorView>
    decreases expr,
{
    match expr {
        ExprView::Number(value) => Ok(value),
        ExprView::Identifier(name) => match lookup(env, name) {
            Some(value) => Ok(value),
            None => Err(RuntimeErrorView::UndefinedVariable(name)),
        },
        ExprView::BinaryOp { left, operator, right } => match eval(*left, env) {
            Ok(l) => match eval(*right, env) {
                Ok(r) => apply(operator, l, r),
                Err(e) => Err(e),
            },
            Err(e) => Err(e),
        },
    }
}

/// The bindings after `statement` has run under `env`, or its failure.
pub open spec fn execute(statement: StatementView, env: Bindings) -> Result<
    Bindings,
    RuntimeErrorView,
> {
    match statement {
        StatementView::Assign { name, value } => match eval(value, env) {
            Ok(v) => Ok(env.insert(name, v)),
            Err(e) => Err(e),
        },
        StatementView::Expr(expr) => match eval(expr, env) {
            Ok(_) => Ok(env),
            Err(e) => Err(e),
        },
    }
}

/// The result of running `statements` in order, starting under `env`: the
/// bindings at the end and no error; or, where a statement fails, the
/// bindings as they were before that statement, and its error.
pub open spec fn run_all(statements: Seq<StatementView>, env: Bindings) -> (
    Bindings,
    Option<RuntimeErrorView>,
)
    decreases statements.len(),
{
    if statements.len() == 0 {
        (env, None)
    } else {
        match execute(statements.first(), env) {
            Ok(next) => run_all(statements.drop_first(), next),
            Err(e) => (env, Some(e)),
        }
    }
}

/// An interpreter with its table of variables.
pub struct Interpreter {
    variables: Environment,
}

impl Interpreter {
    /// The variables bound so far.
    pub closed spec fn bindings(self) -> Bindings {
        self.variables@
    }

    /// An interpreter with no variable bound.
    pub fn new() -> (interpreter: Interpreter)
        ensures
            interpreter.bindings() == Map::<Seq<char>, i64>::empty(),
    {
        Interpreter { variables: Environment::new() }
    }

    /// Runs the statements of `program` in order. Stops at the first
    /// statement that fails and returns its error; what the statements
    /// before it have bound stays bound.
    pub fn run(&mut self, program: Program) -> (result: Result<(), RuntimeError>)
        ensures
            final(self).bindings() == run_all(program@, old(self).bindings()).0,
            match run_all(program@, old(self).bindings()).1 {
                None => result is Ok,
                Some(e) => result matches Err(found) && found@ == e,
            },
    {
        let mut i: usize = 0;
        assert(program@.skip(0) == program@);
        while i < program.statements.len()
            invariant
                i <= program.statements.len(),
                run_all(program@, old(self).bindings()) == run_all(
                    program@.skip(i as int),
                    self.bindings(),
                ),
            decreases program.statements.len() - i,
        {
            assert(program@.skip(i as int).first() == program.statements[i as int]@);
            assert(program@.skip(i as int).drop_first() == program@.skip(i + 1));
            match self.execute_statement(&program.statements[i]) {
                Ok(()) => {},
                Err(e) => {
                    return Err(e);
                },
            }
            i = i + 1;
        }
        Ok(())
    }

    fn execute_statement(&mut self, statement: &Statement) -> (result: Result<(), RuntimeError>)
        ensures
            match execute(statement@, old(self).bindings()) {
                Ok(next) => result is Ok && final(self).bindings() == next,
                Err(e) => {
                    &&& result matches Err(found)
                    &&& found@ == e
                    &&& final(self).bindings() == old(self).bindings()
                },
            },
    {
        match statement {
            Statement::Assign { name, value } => {
                match self.evaluate_expr(value) {
                    Ok(v) => {
                        self.variables.insert(name.clone(), v);
                        Ok(())
                    },
                    Err(e) => Err(e),
                }
            },
            Statement::Expr(expr) => {
                match self.evaluate_expr(expr) {
                    Ok(_) => Ok(()),
                    Err(e) => Err(e),
                }
            },
        }
    }

    fn evaluate_expr(&self, expr: &Expr) -> (result: Result<i64, RuntimeError>)
        ensures
            match eval(expr@, self.bindings()) {
                Ok(value) => result == Ok::<i64, RuntimeError>(value),
                Err(e) => result matches Err(found) && found@ == e,
            },
        decreases expr,
    {
        match expr {
            Expr::Number(value) => Ok(*value),
            Expr::Identifier(name) => match self.variables.get(name.as_str()) {
                Some(value) => Ok(value),
                None => Err(RuntimeError::UndefinedVariable(name.clone())),
            },
            Expr::BinaryOp { left, operator, right } => {
                let l = match self.evaluate_expr(left) {
                    Ok(l) => l,
                    Err(e) => {
                        return Err(e);
                    },
                };
                let r = match self.evaluate_expr(right) {
                    Ok(r) => r,
                    Err(e) => {
                        return Err(e);
                    },
                };
                apply_operator(*operator, l, r)
            },
        }
    }

    /// The value of the variable `name`, if it is bound.
    pub fn get_variable(&self, name: &str) -> (value: Option<i64>)
        ensures
            value == lookup(self.bindings(), name@),
    {
        self.variables.get(name)
    }

    /// Every bound variable with its value, once, in the order of the names.
    pub fn variables(&self) -> (bindings: Vec<(String, i64)>)
        ensures
            lists(binding_views(bindings@), self.bindings()),
    {
        self.variables.list()
    }
}

/// Applies `operator` to two values.
pub fn apply_operator(operator: Operator, l: i64, r: i64) -> (result: Result<i64, RuntimeError>)
    ensures
        match apply(operator, l, r) {
            Ok(value) => result == Ok::<i64, RuntimeError>(value),
            Err(e) => result matches Err(found) && found@ == e,
        },
{
    match operator {
        Operator::Plus => Ok(l.wrapping_add(r)),
        Operator::Minus => Ok(l.wrapping_sub(r)),
        Operator::Multiply => Ok(l.wrapping_mul(r)),
        Operator::Divide => {
            if r == 0 {
                Err(RuntimeError::DivisionByZero)
            } else {
                match l.checked_div(r) {
                    Some(q) => Ok(q),
                    None => Ok(i64::MIN),
                }
            }
        },
        Operator::Eq => Ok(if l == r { 1 } else { 0 }),
        Operator::NotEq => Ok(if l != r { 1 } else { 0 }),
        Operator::Gt => Ok(if l > r { 1 } else { 0 }),
        Operator::Lt => Ok(if l < r { 1 } else { 0 }),
        Operator::GtEq => Ok(if l >= r { 1 } else { 0 }),
        Operator::LtEq => Ok(if l <= r { 1 } else { 0 }),
    }
}

/// The line that reports a binding: the name, ` = `, and the value as a
/// decimal numeral.
pub open spec fn report_line(binding: Binding) -> Seq<char> {
    binding.0 + " = "@ + signed_decimal(binding.1 as int)
}

/// The lines that report `bindings`, one for each, in the same order.
pub fn report_lines(bindings: &Vec<(String, i64)>) -> (lines: Vec<String>)
    ensures
        lines@.len() == bindings@.len(),
        forall|i: int|
            0 <= i < lines@.len() ==> (#[trigger] lines@[i])@ == report_line(
                binding_views(bindings@)[i],
            ),
{
    let mut lines: Vec<String> = Vec::new();
    let mut i: usize = 0;
    while i < bindings.len()
        invariant
            i <= bindings.len(),
            lines@.len() == i,
            forall|k: int|
                0 <= k < i ==> (#[trigger] lines@[k])@ == report_line(binding_views(bindings@)[k]),
        decreases bindings.len() - i,
    {
        let line = bindings[i].0.clone().concat(" = ").concat(format_i64(bindings[i].1).as_str());
        lines.push(line);
        i = i + 1;
    }
    lines
}

/// Whether `operator` compares its operands.
pub open spec fn is_comparison(operator: Operator) -> bool {
    operator is Eq || operator is NotEq || operator is Gt || operator is Lt || operator is GtEq
        || operator is LtEq
}

/// A comparison never fails and gives 1 or 0, nothing else: 1 exactly where
/// the relation holds between the operands.
pub proof fn lemma_comparison_gives_one_or_zero(operator: Operator, l: i64, r: i64)
    requires
        is_comparison(operator),
    ensures
        apply(operator, l, r) == Ok::<i64, RuntimeErrorView>(1) || apply(operator, l, r) == Ok::<
            i64,
            RuntimeErrorView,
        >(0),
        apply(operator, l, r) == Ok::<i64, RuntimeErrorView>(1) <==> (match operator {
            Operator::Eq => l == r,
            Operator::NotEq => l != r,
            Operator::Gt => l > r,
            Operator::Lt => l < r,
            Operator::GtEq => l >= r,
            _ => l <= r,
        }),
{
}

/// An expression that compares two operands evaluates to 1 or to 0 wherever
/// both operands have a value.
pub proof fn lemma_comparison_evaluates_to_one_or_zero(
    left: ExprView,
    operator: Operator,
    right: ExprView,
    env: Bindings,
)
    requires
        is_comparison(operator),
        eval(left, env) is Ok,
        eval(right, env) is Ok,
    ensures
        ({
            let value = eval(
                ExprView::BinaryOp { left: Box::new(left), operator, right: Box::new(right) },
                env,
            );
            value == Ok::<i64, RuntimeErrorView>(1) || value == Ok::<i64, RuntimeErrorView>(0)
        }),
{
    lemma_comparison_gives_one_or_zero(operator, eval(left, env)->Ok_0, eval(right, env)->Ok_0);
}

/// Where no operation overflows, the arithmetic is that of the integers.
pub proof fn lemma_arithmetic_within_range(l: i64, r: i64)
    ensures
        i64::MIN <= l + r <= i64::MAX ==> apply(Operator::Plus, l, r) == Ok::<
            i64,
            RuntimeErrorView,
        >((l + r) as i64),
        i64::MIN <= l - r <= i64::MAX ==> apply(Operator::Minus, l, r) == Ok::<
            i64,
            RuntimeErrorView,
        >((l - r) as i64),
        i64::MIN <= l * r <= i64::MAX ==> apply(Operator::Multiply, l, r) == Ok::<
            i64,
            RuntimeErrorView,
        >((l * r) as i64),
        r != 0 && !(l == i64::MIN && r == -1) ==> apply(Operator::Divide, l, r) == Ok::<
            i64,
            RuntimeErrorView,
        >(quotient(l as int, r as int) as i64),
        apply(Operator::Divide, l, 0) == Err::<i64, RuntimeErrorView>(
            RuntimeErrorView::DivisionByZero,
        ),
{
    if r != 0 && !(l == i64::MIN && r == -1) {
        lemma_quotient_bounds(l, r);
    }
}

/// A quotient of two `i64` values fits an `i64`, but for the least value
/// divided by -1.
pub proof fn lemma_quotient_bounds(l: i64, r: i64)
    requires
        r != 0,
        !(l == i64::MIN && r == -1),
    ensures
        i64::MIN <= quotient(l as int, r as int) <= i64::MAX,
{
    let a: int = if l >= 0 { l as int } else { -(l as int) };
    let b: int = if r > 0 { r as int } else { -(r as int) };
    assert(0 <= a / b <= a && (b >= 2 && a > 0 ==> a / b < a)) by (nonlinear_arith)
        requires
            a >= 0,
            b > 0,
    ;
}

/// An assignment whose value can be computed binds its name to that value
/// and changes no other binding, whatever the name was bound to before.
pub proof fn lemma_assignment_binds(name: Seq<char>, value: ExprView, env: Bindings)
    requires
        eval(value, env) is Ok,
    ensures
        execute(StatementView::Assign { name, value }, env) matches Ok(next) && {
            &&& lookup(next, name) == Some(eval(value, env)->Ok_0)
            &&& forall|other: Seq<char>| other != name ==> lookup(next, other) == lookup(env, other)
        },
{
}

/// A statement whose expression fails binds nothing: the run stops there
/// with that error and with the bindings as they were.
pub proof fn lemma_failure_binds_nothing(statement: StatementView, env: Bindings)
    requires
        execute(statement, env) is Err,
    ensures
        run_all(seq![statement], env) == (env, Some(execute(statement, env)->Err_0)),
{
}

/// Reading a name that is not bound fails with that name, also where the
/// read is the left operand of an operation.
pub proof fn lemma_unbound_name_fails(
    name: Seq<char>,
    operator: Operator,
    right: ExprView,
    env: Bindings,
)
    requires
        !env.contains_key(name),
    ensures
        eval(ExprView::Identifier(name), env) == Err::<i64, RuntimeErrorView>(
            RuntimeErrorView::UndefinedVariable(name),
        ),
        eval(
            ExprView::BinaryOp {
                left: Box::new(ExprView::Identifier(name)),
                operator,
                right: Box::new(right),
            },
            env,
        ) == Err::<i64, RuntimeErrorView>(RuntimeErrorView::UndefinedVariable(name)),
{
}

/// Running one row of statements after another is running the two rows in
/// turn: the second starts under the bindings that the first has left, and
/// does not start at all where the first has failed.
pub proof fn lemma_run_all_in_turn(
    first: Seq<StatementView>,
    second: Seq<StatementView>,
    env: Bindings,
)
    ensures
        run_all(first + second, env) == (if run_all(first, env).1 is None {
            run_all(second, run_all(first, env).0)
        } else {
            run_all(first, env)
        }),
    decreases first.len(),
{
    if first.len() == 0 {
        assert(first + second == second);
    } else {
        assert((first + second).first() == first.first());
        assert((first + second).drop_first() == first.drop_first() + second);
        if let Ok(next) = execute(first.first(), env) {
            lemma_run_all_in_turn(first.drop_first(), second, next);
        }
    }
}

/// A program without statements runs without error and binds nothing.
pub proof fn lemma_empty_program_binds_nothing(env: Bindings)
    ensures
        run_all(Seq::<StatementView>::empty(), env) == (env, None::<RuntimeErrorView>),
{
}

} // verus!
