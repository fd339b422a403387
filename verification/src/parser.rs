//! The parser: from tokens to a syntax tree.
//!
//! The grammar has four levels. From the loosest to the tightest:
//!
//! ```text
//! Program        := Statement* EOF
//! Statement      := Identifier '=' Comparison | Comparison
//! Comparison     := Additive ( ('==' | '!=' | '>' | '<' | '>=' | '<=') Additive )*
//! Additive       := Multiplicative ( ('+' | '-') Multiplicative )*
//! Multiplicative := Primary ( ('*' | '/') Primary )*
//! Primary        := Number | Identifier
//! ```
//!
//! Every operator is left-associative. The functions in the first half of this
//! file define, over a sequence of tokens, the tree that this grammar gives;
//! [`Parser`] computes exactly that.

use vstd::prelude::*;
use vstd::string::*;
use crate::ast::{statement_views, Expr, ExprView, Operator, Program, Statement, StatementView};
use crate::text::{decimal, push_decimal};
use crate::token::{kind_text, token_views, Token, TokenKind, TokenType, TokenView};

verus! {

/// A token that fits no rule of the grammar at its place.
#[derive(Debug, Clone, PartialEq)]
pub struct ParseError {
    /// What the grammar asks for there.
    pub expected: String,
    /// The token that stands there instead.
    pub found: TokenType,
    /// The line of that token; 0 where the tokens have run out.
    pub line: usize,
}

/// The mathematical value of a [`ParseError`].
pub struct ParseErrorView {
    pub expected: Seq<char>,
    pub found: TokenKind,
    pub line: usize,
}

impl View for ParseError {
    type V = ParseErrorView;

    open spec fn view(&self) -> ParseErrorView {
        ParseErrorView { expected: self.expected@, found: self.found@, line: self.line }
    }
}

/// The text of a parse error.
pub open spec fn parse_message(error: ParseErrorView) -> Seq<char> {
    "Expected "@ + error.expected + ", found: "@ + kind_text(error.found) + " at line "@
        + decimal(error.line as nat)
}

impl ParseError {
    /// The error as one line of text.
    pub fn message(&self) -> (text: String)
        ensures
            text@ == parse_message(self@),
    {
        let mut text = String::from_str("Expected ");
        text.append(self.expected.as_str());
        text.append(", found: ");
        text.append(self.found.text().as_str());
        text.append(" at line ");
        push_decimal(&mut text, self.line as u64);
        text
    }
}

/// What a parse from some position gives: the tree and the position behind
/// the tokens it is made of, or the error.
pub type Parsed<T> = Result<(T, int), ParseErrorView>;

/// The token at `pos`. Behind the last token stands an endless row of `EOF`
/// tokens on line 0.
pub open spec fn token_at(tokens: Seq<TokenView>, pos: int) -> TokenView {
    if 0 <= pos < tokens.len() {
        tokens[pos]
    } else {
        TokenView { kind: TokenKind::EOF, literal: Seq::empty(), line: 0 }
    }
}

/// The text of the one expectation that the grammar has.
pub open spec fn expected_primary() -> Seq<char> {
    "number or identifier"@
}

/// The operator that a token denotes between two multiplicative operands.
pub open spec fn multiplicative_operator(kind: TokenKind) -> Option<Operator> {
    match kind {
        TokenKind::Star => Some(Operator::Multiply),
        TokenKind::Slash => Some(Operator::Divide),
        _ => None,
    }
}

/// The operator that a token denotes between two additive operands.
pub open spec fn additive_operator(kind: TokenKind) -> Option<Operator> {
    match kind {
        TokenKind::Plus => Some(Operator::Plus),
        TokenKind::Minus => Some(Operator::Minus),
        _ => None,
    }
}

/// The operator that a token denotes between two operands of a comparison.
pub open spec fn comparison_operator(kind: TokenKind) -> Option<Operator> {
    match kind {
        TokenKind::Eq => Some(Operator::Eq),
        TokenKind::NotEq => Some(Operator::NotEq),
        TokenKind::Gt => Some(Operator::Gt),
        TokenKind::Lt => Some(Operator::Lt),
        TokenKind::GtEq => Some(Operator::GtEq),
        TokenKind::LtEq => Some(Operator::LtEq),
        _ => None,
    }
}

/// The tree of `left operator right`.
pub open spec fn binary(left: ExprView, operator: Operator, right: ExprView) -> ExprView {
    ExprView::BinaryOp { left: Box::new(left), operator, right: Box::new(right) }
}

/// `Primary` at `pos`: a number or an identifier, one token long.
pub open spec fn primary_at(tokens: Seq<TokenView>, pos: int) -> Parsed<ExprView> {
    let token = token_at(tokens, pos);
    match token.kind {
        TokenKind::Number(value) => Ok((ExprView::Number(value), pos + 1)),
        TokenKind::Ident(name) => Ok((ExprView::Identifier(name), pos + 1)),
        _ => Err(
            ParseErrorView { expected: expected_primary(), found: token.kind, line: token.line },
        ),
    }
}

/// The rest of a `Multiplicative` whose operands so far make up `left`.
pub open spec fn multiplicative_rest(tokens: Seq<TokenView>, left: ExprView, pos: int) -> Parsed<
    ExprView,
>
    decreases tokens.len() - pos,
{
    match multiplicative_operator(token_at(tokens, pos).kind) {
        Some(operator) => match primary_at(tokens, pos + 1) {
            Ok((right, next)) => multiplicative_rest(tokens, binary(left, operator, right), next),
            Err(e) => Err(e),
        },
        None => Ok((left, pos)),
    }
}

/// `Multiplicative` at `pos`.
pub open spec fn multiplicative_at(tokens: Seq<TokenView>, pos: int) -> Parsed<ExprView> {
    match primary_at(tokens, pos) {
        Ok((left, next)) => multiplicative_rest(tokens, left, next),
        Err(e) => Err(e),
    }
}

/// The rest of a `Multiplicative` ends at or behind `pos`, within the tokens.
pub proof fn lemma_multiplicative_rest_advances(tokens: Seq<TokenView>, left: ExprView, pos: int)
    requires
        0 <= pos <= tokens.len(),
    ensures
        multiplicative_rest(tokens, left, pos) matches Ok((_, next)) ==> pos <= next
            <= tokens.len(),
    decreases tokens.len() - pos,
{
    if let Some(operator) = multiplicative_operator(token_at(tokens, pos).kind) {
        if let Ok((right, next)) = primary_at(tokens, pos + 1) {
            lemma_multiplicative_rest_advances(tokens, binary(left, operator, right), next);
        }
    }
}

/// A `Multiplicative` is at least one token long and ends within the tokens.
pub proof fn lemma_multiplicative_advances(tokens: Seq<TokenView>, pos: int)
    requires
        0 <= pos <= tokens.len(),
    ensures
        multiplicative_at(tokens, pos) matches Ok((_, next)) ==> pos < next <= tokens.len(),
{
    if let Ok((left, next)) = primary_at(tokens, pos) {
        lemma_multiplicative_rest_advances(tokens, left, next);
    }
}

/// The rest of an `Additive` whose operands so far make up `left`.
pub open spec fn additive_rest(tokens: Seq<TokenView>, left: ExprView, pos: int) -> Parsed<
    ExprView,
>
    decreases tokens.len() - pos,
    when 0 <= pos <= tokens.len()
{
    match additive_operator(token_at(tokens, pos).kind) {
        Some(operator) => match multiplicative_at(tokens, pos + 1) {
            Ok((right, next)) => {
                proof {
                    lemma_multiplicative_advances(tokens, pos + 1);
                }
                additive_rest(tokens, binary(left, operator, right), next)
            },
            Err(e) => Err(e),
        },
        None => Ok((left, pos)),
    }
}

/// `Additive` at `pos`.
pub open spec fn additive_at(tokens: Seq<TokenView>, pos: int) -> Parsed<ExprView> {
    match multiplicative_at(tokens, pos) {
        Ok((left, next)) => additive_rest(tokens, left, next),
        Err(e) => Err(e),
    }
}

/// The rest of an `Additive` ends at or behind `pos`, within the tokens.
pub proof fn lemma_additive_rest_advances(tokens: Seq<TokenView>, left: ExprView, pos: int)
    requires
        0 <= pos <= tokens.len(),
    ensures
        additive_rest(tokens, left, pos) matches Ok((_, next)) ==> pos <= next <= tokens.len(),
    decreases tokens.len() - pos,
{
    if let Some(operator) = additive_operator(token_at(tokens, pos).kind) {
        if let Ok((right, next)) = multiplicative_at(tokens, pos + 1) {
            lemma_multiplicative_advances(tokens, pos + 1);
            lemma_additive_rest_advances(tokens, binary(left, operator, right), next);
        }
    }
}

/// An `Additive` is at least one token long and ends within the tokens.
pub proof fn lemma_additive_advances(tokens: Seq<TokenView>, pos: int)
    requires
        0 <= pos <= tokens.len(),
    ensures
        additive_at(tokens, pos) matches Ok((_, next)) ==> pos < next <= tokens.len(),
{
    lemma_multiplicative_advances(tokens, pos);
    if let Ok((left, next)) = multiplicative_at(tokens, pos) {
        lemma_additive_rest_advances(tokens, left, next);
    }
}

/// The rest of a `Comparison` whose operands so far make up `left`.
pub open spec fn comparison_rest(tokens: Seq<TokenView>, left: ExprView, pos: int) -> Parsed<
    ExprView,
>
    decreases tokens.len() - pos,
    when 0 <= pos <= tokens.len()
{
    match comparison_operator(token_at(tokens, pos).kind) {
        Some(operator) => match additive_at(tokens, pos + 1) {
            Ok((right, next)) => {
                proof {
                    lemma_additive_advances(tokens, pos + 1);
                }
                comparison_rest(tokens, binary(left, operator, right), next)
            },
            Err(e) => Err(e),
        },
        None => Ok((left, pos)),
    }
}

/// `Comparison` at `pos`: a whole expression.
pub open spec fn comparison_at(tokens: Seq<TokenView>, pos: int) -> Parsed<ExprView> {
    match additive_at(tokens, pos) {
        Ok((left, next)) => comparison_rest(tokens, left, next),
        Err(e) => Err(e),
    }
}

/// The rest of a `Comparison` ends at or behind `pos`, within the tokens.
pub proof fn lemma_comparison_rest_advances(tokens: Seq<TokenView>, left: ExprView, pos: int)
    requires
        0 <= pos <= tokens.len(),
    ensures
        comparison_rest(tokens, left, pos) matches Ok((_, next)) ==> pos <= next <= tokens.len(),
    decreases tokens.len() - pos,
{
    if let Some(operator) = comparison_operator(token_at(tokens, pos).kind) {
        if let Ok((right, next)) = additive_at(tokens, pos + 1) {
            lemma_additive_advances(tokens, pos + 1);
            lemma_comparison_rest_advances(tokens, binary(left, operator, right), next);
        }
    }
}

/// An expression is at least one token long and ends within the tokens.
pub proof fn lemma_comparison_advances(tokens: Seq<TokenView>, pos: int)
    requires
        0 <= pos <= tokens.len(),
    ensures
        comparison_at(tokens, pos) matches Ok((_, next)) ==> pos < next <= tokens.len(),
{
    lemma_additive_advances(tokens, pos);
    if let Ok((left, next)) = additive_at(tokens, pos) {
        lemma_comparison_rest_advances(tokens, left, next);
    }
}

/// `Statement` at `pos`: an assignment where an identifier is followed at
/// once by `=`, an expression otherwise.
pub open spec fn statement_at(tokens: Seq<TokenView>, pos: int) -> Parsed<StatementView> {
    match token_at(tokens, pos).kind {
        TokenKind::Ident(name) if token_at(tokens, pos + 1).kind is Assign => {
            match comparison_at(tokens, pos + 2) {
                Ok((value, next)) => Ok((StatementView::Assign { name, value }, next)),
                Err(e) => Err(e),
            }
        },
        _ => match comparison_at(tokens, pos) {
            Ok((expr, next)) => Ok((StatementView::Expr(expr), next)),
            Err(e) => Err(e),
        },
    }
}

/// A statement is at least one token long and ends within the tokens.
pub proof fn lemma_statement_advances(tokens: Seq<TokenView>, pos: int)
    requires
        0 <= pos <= tokens.len(),
    ensures
        statement_at(tokens, pos) matches Ok((_, next)) ==> pos < next <= tokens.len(),
{
    lemma_comparison_advances(tokens, pos);
    if token_at(tokens, pos).kind is Ident && token_at(tokens, pos + 1).kind is Assign {
        lemma_comparison_advances(tokens, pos + 2);
    }
}

/// The statements from `pos` up to the first `EOF`, with the position of
/// that `EOF`.
pub open spec fn program_at(tokens: Seq<TokenView>, pos: int) -> Parsed<Seq<StatementView>>
    decreases tokens.len() - pos,
    when 0 <= pos <= tokens.len()
{
    if token_at(tokens, pos).kind is EOF {
        Ok((Seq::empty(), pos))
    } else {
        match statement_at(tokens, pos) {
            Ok((statement, next)) => {
                proof {
                    lemma_statement_advances(tokens, pos);
                }
                match program_at(tokens, next) {
                    Ok((rest, end)) => Ok((seq![statement] + rest, end)),
                    Err(e) => Err(e),
                }
            },
            Err(e) => Err(e),
        }
    }
}

/// A cursor over a row of tokens that builds the syntax tree.
pub struct Parser {
    tokens: Vec<Token>,
    position: usize,
}

impl Parser {
    #[verifier::type_invariant]
    spec fn within_tokens(self) -> bool {
        self.position <= self.tokens.len()
    }

    /// The tokens being read.
    pub closed spec fn tokens(self) -> Seq<TokenView> {
        token_views(self.tokens@)
    }

    /// How many tokens have been read.
    pub closed spec fn position(self) -> int {
        self.position as int
    }

    /// A parser in front of the first of `tokens`.
    pub fn new(tokens: Vec<Token>) -> (parser: Parser)
        ensures
            parser.tokens() == token_views(tokens@),
            parser.position() == 0,
    {
        Parser { tokens, position: 0 }
    }

    /// The token at the cursor; `None` where the tokens have run out.
    fn current(&self) -> (token: Option<&Token>)
        ensures
            self.position() <= self.tokens().len(),
            match token {
                Some(t) => self.position() < self.tokens().len() && t@ == token_at(
                    self.tokens(),
                    self.position(),
                ),
                None => self.position() == self.tokens().len(),
            },
    {
        proof {
            use_type_invariant(self);
        }
        if self.position < self.tokens.len() {
            Some(&self.tokens[self.position])
        } else {
            None
        }
    }

    /// Moves the cursor over one token.
    fn advance(&mut self)
        requires
            old(self).position() < old(self).tokens().len(),
        ensures
            final(self).tokens() == old(self).tokens(),
            final(self).position() == old(self).position() + 1,
    {
        let len = self.tokens.len();
        assert(self.position < len);
        self.position = self.position + 1;
    }

    /// Puts the cursor back to `position`.
    fn rewind(&mut self, position: usize)
        requires
            position <= old(self).tokens().len(),
        ensures
            final(self).tokens() == old(self).tokens(),
            final(self).position() == position,
    {
        self.position = position;
    }

    /// Parses one expression at the cursor and moves the cursor behind it.
    /// On an error the cursor stays where it was.
    pub fn parse_expression(&mut self) -> (result: Result<Expr, ParseError>)
        ensures
            final(self).tokens() == old(self).tokens(),
            match comparison_at(old(self).tokens(), old(self).position()) {
                Ok((expr, next)) => {
                    &&& result matches Ok(found)
                    &&& found@ == expr
                    &&& final(self).position() == next
                },
                Err(e) => {
                    &&& result matches Err(found)
                    &&& found@ == e
                    &&& final(self).position() == old(self).position()
                },
            },
    {
        self.parse_comparison()
    }

    fn parse_comparison(&mut self) -> (result: Result<Expr, ParseError>)
        ensures
            final(self).tokens() == old(self).tokens(),
            final(self).position() <= old(self).tokens().len(),
            match comparison_at(old(self).tokens(), old(self).position()) {
                Ok((expr, next)) => {
                    &&& result matches Ok(found)
                    &&& found@ == expr
                    &&& final(self).position() == next
                },
                Err(e) => {
                    &&& result matches Err(found)
                    &&& found@ == e
                    &&& final(self).position() == old(self).position()
                },
            },
    {
        proof {
            use_type_invariant(&*self);
        }
        let start = self.position;
        let mut expr = match self.parse_addition() {
            Ok(expr) => expr,
            Err(e) => {
                return Err(e);
            },
        };
        loop
            invariant
                self.tokens() == old(self).tokens(),
                start == old(self).position(),
                start <= self.tokens().len(),
                self.position() <= self.tokens().len(),
                comparison_at(old(self).tokens(), old(self).position()) == comparison_rest(
                    self.tokens(),
                    expr@,
                    self.position(),
                ),
            decreases self.tokens().len() - self.position(),
        {
            let operator = match self.current() {
                Some(token) => comparison_operator_of(&token.token_type),
                None => None,
            };
            match operator {
                Some(operator) => {
                    proof {
                        lemma_additive_advances(self.tokens(), self.position() + 1);
                    }
                    self.advance();
                    match self.parse_addition() {
                        Ok(right) => {
                            expr =
                            Expr::BinaryOp {
                                left: Box::new(expr),
                                operator,
                                right: Box::new(right),
                            };
                        },
                        Err(e) => {
                            self.rewind(start);
                            return Err(e);
                        },
                    }
                },
                None => {
                    return Ok(expr);
                },
            }
        }
    }

    fn parse_addition(&mut self) -> (result: Result<Expr, ParseError>)
        ensures
            final(self).tokens() == old(self).tokens(),
            final(self).position() <= old(self).tokens().len(),
            match additive_at(old(self).tokens(), old(self).position()) {
                Ok((expr, next)) => {
                    &&& result matches Ok(found)
                    &&& found@ == expr
                    &&& final(self).position() == next
                },
                Err(e) => {
                    &&& result matches Err(found)
                    &&& found@ == e
                    &&& final(self).position() == old(self).position()
                },
            },
    {
        proof {
            use_type_invariant(&*self);
        }
        let start = self.position;
        let mut expr = match self.parse_multiplication() {
            Ok(expr) => expr,
            Err(e) => {
                return Err(e);
            },
        };
        loop
            invariant
                self.tokens() == old(self).tokens(),
                start == old(self).position(),
                start <= self.tokens().len(),
                self.position() <= self.tokens().len(),
                additive_at(old(self).tokens(), old(self).position()) == additive_rest(
                    self.tokens(),
                    expr@,
                    self.position(),
                ),
            decreases self.tokens().len() - self.position(),
        {
            let operator = match self.current() {
                Some(token) => additive_operator_of(&token.token_type),
                None => None,
            };
            match operator {
                Some(operator) => {
                    proof {
                        lemma_multiplicative_advances(self.tokens(), self.position() + 1);
                    }
                    self.advance();
                    match self.parse_multiplication() {
                        Ok(right) => {
                            expr =
                            Expr::BinaryOp {
                                left: Box::new(expr),
                                operator,
                                right: Box::new(right),
                            };
                        },
                        Err(e) => {
                            self.rewind(start);
                            return Err(e);
                        },
                    }
                },
                None => {
                    return Ok(expr);
                },
            }
        }
    }

    fn parse_multiplication(&mut self) -> (result: Result<Expr, ParseError>)
        ensures
            final(self).tokens() == old(self).tokens(),
            final(self).position() <= old(self).tokens().len(),
            match multiplicative_at(old(self).tokens(), old(self).position()) {
                Ok((expr, next)) => {
                    &&& result matches Ok(found)
                    &&& found@ == expr
                    &&& final(self).position() == next
                },
                Err(e) => {
                    &&& result matches Err(found)
                    &&& found@ == e
                    &&& final(self).position() == old(self).position()
                },
            },
    {
        proof {
            use_type_invariant(&*self);
        }
        let start = self.position;
        let mut expr = match self.parse_primary() {
            Ok(expr) => expr,
            Err(e) => {
                return Err(e);
            },
        };
        loop
            invariant
                self.tokens() == old(self).tokens(),
                start == old(self).position(),
                start <= self.tokens().len(),
                self.position() <= self.tokens().len(),
                multiplicative_at(old(self).tokens(), old(self).position()) == multiplicative_rest(
                    self.tokens(),
                    expr@,
                    self.position(),
                ),
            decreases self.tokens().len() - self.position(),
        {
            let operator = match self.current() {
                Some(token) => multiplicative_operator_of(&token.token_type),
                None => None,
            };
            match operator {
                Some(operator) => {
                    self.advance();
                    match self.parse_primary() {
                        Ok(right) => {
                            expr =
                            Expr::BinaryOp {
                                left: Box::new(expr),
                                operator,
                                right: Box::new(right),
                            };
                        },
                        Err(e) => {
                            self.rewind(start);
                            return Err(e);
                        },
                    }
                },
                None => {
                    return Ok(expr);
                },
            }
        }
    }

    fn parse_primary(&mut self) -> (result: Result<Expr, ParseError>)
        ensures
            final(self).tokens() == old(self).tokens(),
            final(self).position() <= old(self).tokens().len(),
            match primary_at(old(self).tokens(), old(self).position()) {
                Ok((expr, next)) => {
                    &&& result matches Ok(found)
                    &&& found@ == expr
                    &&& final(self).position() == next
                },
                Err(e) => {
                    &&& result matches Err(found)
                    &&& found@ == e
                    &&& final(self).position() == old(self).position()
                },
            },
    {
        match self.current() {
            Some(token) => match &token.token_type {
                TokenType::Number(value) => {
                    let expr = Expr::Number(*value);
                    self.advance();
                    Ok(expr)
                },
                TokenType::Ident(name) => {
                    let expr = Expr::Identifier(name.clone());
                    self.advance();
                    Ok(expr)
                },
                other => Err(
                    ParseError {
                        expected: String::from_str("number or identifier"),
                        found: other.clone(),
                        line: token.line,
                    },
                ),
            },
            None => Err(
                ParseError {
                    expected: String::from_str("number or identifier"),
                    found: TokenType::EOF,
                    line: 0,
                },
            ),
        }
    }

    fn parse_statement(&mut self) -> (result: Result<Statement, ParseError>)
        ensures
            final(self).tokens() == old(self).tokens(),
            final(self).position() <= old(self).tokens().len(),
            match statement_at(old(self).tokens(), old(self).position()) {
                Ok((statement, next)) => {
                    &&& result matches Ok(found)
                    &&& found@ == statement
                    &&& final(self).position() == next
                },
                Err(e) => {
                    &&& result matches Err(found)
                    &&& found@ == e
                    &&& final(self).position() == old(self).position()
                },
            },
    {
        proof {
            use_type_invariant(&*self);
        }
        let start = self.position;
        let target = match self.current() {
            Some(token) => match &token.token_type {
                TokenType::Ident(name) if self.assign_follows() => Some(name.clone()),
                _ => None,
            },
            None => None,
        };
        match target {
            Some(name) => {
                self.advance();
                self.advance();
                match self.parse_comparison() {
                    Ok(value) => Ok(Statement::Assign { name, value }),
                    Err(e) => {
                        self.rewind(start);
                        Err(e)
                    },
                }
            },
            None => match self.parse_comparison() {
                Ok(expr) => Ok(Statement::Expr(expr)),
                Err(e) => Err(e),
            },
        }
    }

    /// Whether the token behind the one at the cursor is `=`.
    fn assign_follows(&self) -> (b: bool)
        ensures
            b == (token_at(self.tokens(), self.position() + 1).kind is Assign),
    {
        proof {
            use_type_invariant(self);
        }
        if self.position < self.tokens.len() && self.position + 1 < self.tokens.len() {
            matches!(self.tokens[self.position + 1].token_type, TokenType::Assign)
        } else {
            false
        }
    }

    /// Parses statements from the cursor up to the first `EOF` token and
    /// leaves the cursor in front of it. On an error the cursor stays where
    /// it was, and no statement is returned.
    pub fn parse(&mut self) -> (result: Result<Program, ParseError>)
        ensures
            final(self).tokens() == old(self).tokens(),
            match program_at(old(self).tokens(), old(self).position()) {
                Ok((statements, end)) => {
                    &&& result matches Ok(program)
                    &&& program@ == statements
                    &&& final(self).position() == end
                },
                Err(e) => {
                    &&& result matches Err(found)
                    &&& found@ == e
                    &&& final(self).position() == old(self).position()
                },
            },
    {
        proof {
            use_type_invariant(&*self);
        }
        let start = self.position;
        let mut statements: Vec<Statement> = Vec::new();
        loop
            invariant
                self.tokens() == old(self).tokens(),
                start == old(self).position(),
                start <= self.tokens().len(),
                self.position() <= self.tokens().len(),
                program_at(old(self).tokens(), old(self).position()) == (match program_at(
                    self.tokens(),
                    self.position(),
                ) {
                    Ok((rest, end)) => Ok((statement_views(statements@) + rest, end)),
                    Err(e) => Err(e),
                }),
            decreases self.tokens().len() - self.position(),
        {
            let at_end = match self.current() {
                Some(token) => matches!(token.token_type, TokenType::EOF),
                None => true,
            };
            if at_end {
                assert(statement_views(statements@) + Seq::<StatementView>::empty()
                    == statement_views(statements@));
                return Ok(Program { statements });
            }
            proof {
                lemma_statement_advances(self.tokens(), self.position());
            }
            let ghost before = statement_views(statements@);
            match self.parse_statement() {
                Ok(statement) => {
                    let ghost view = statement@;
                    statements.push(statement);
                    assert(statement_views(statements@) == before + seq![view]);
                    assert(forall|rest: Seq<StatementView>|
                        #![auto]
                        before + seq![view] + rest == before + (seq![view] + rest));
                },
                Err(e) => {
                    self.rewind(start);
                    return Err(e);
                },
            }
        }
    }
}

fn multiplicative_operator_of(kind: &TokenType) -> (operator: Option<Operator>)
    ensures
        operator == multiplicative_operator(kind@),
{
    match kind {
        TokenType::Star => Some(Operator::Multiply),
        TokenType::Slash => Some(Operator::Divide),
        _ => None,
    }
}

fn additive_operator_of(kind: &TokenType) -> (operator: Option<Operator>)
    ensures
        operator == additive_operator(kind@),
{
    match kind {
        TokenType::Plus => Some(Operator::Plus),
        TokenType::Minus => Some(Operator::Minus),
        _ => None,
    }
}

fn comparison_operator_of(kind: &TokenType) -> (operator: Option<Operator>)
    ensures
        operator == comparison_operator(kind@),
{
    match kind {
        TokenType::Eq => Some(Operator::Eq),
        TokenType::NotEq => Some(Operator::NotEq),
        TokenType::Gt => Some(Operator::Gt),
        TokenType::Lt => Some(Operator::Lt),
        TokenType::GtEq => Some(Operator::GtEq),
        TokenType::LtEq => Some(Operator::LtEq),
        _ => None,
    }
}

} // verus!
