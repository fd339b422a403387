//! The lexer: from source text to tokens.
//!
//! The functions in the first half of this file define, over a sequence of
//! characters, which tokens a source text consists of. [`Lexer`] and
//! [`tokenize`] compute exactly that.

use vstd::prelude::*;
use vstd::string::*;
use crate::text::{chars_of, string_of};
pub use crate::token::{token_views, LexError, Token, TokenKind, TokenType, TokenView};

verus! {

/// The classes of characters that form runs.
pub enum CharClass {
    /// Space, tab, carriage return, newline.
    Space,
    /// The ASCII digits.
    Digit,
    /// ASCII letters, ASCII digits and the underscore.
    Word,
}

pub open spec fn is_space(c: char) -> bool {
    c == ' ' || c == '\t' || c == '\n' || c == '\r'
}

pub open spec fn is_digit(c: char) -> bool {
    '0' <= c <= '9'
}

pub open spec fn is_letter(c: char) -> bool {
    ('a' <= c <= 'z') || ('A' <= c <= 'Z') || c == '_'
}

pub open spec fn in_class(c: char, class: CharClass) -> bool {
    match class {
        CharClass::Space => is_space(c),
        CharClass::Digit => is_digit(c),
        CharClass::Word => is_letter(c) || is_digit(c),
    }
}

/// The end of the longest run of characters of `class` that starts at `pos`.
pub open spec fn run_end(src: Seq<char>, pos: int, class: CharClass) -> int
    decreases src.len() - pos,
{
    if 0 <= pos < src.len() && in_class(src[pos], class) {
        run_end(src, pos + 1, class)
    } else {
        pos
    }
}

/// The line counter after reading `c`: a newline advances it. The counter
/// stops at the largest `usize`, which no text that fits in memory reaches.
pub open spec fn line_after(line: usize, c: char) -> usize {
    if c == '\n' && line < usize::MAX {
        (line + 1) as usize
    } else {
        line
    }
}

/// The line counter after reading `src[from..to]`, having been `line` before.
pub open spec fn line_through(src: Seq<char>, from: int, to: int, line: usize) -> usize
    decreases to - from,
{
    if to <= from {
        line
    } else {
        line_after(line_through(src, from, to - 1, line), src[to - 1])
    }
}

/// The value of a decimal digit; 0 for any other character.
pub open spec fn digit_value(c: char) -> nat {
    if is_digit(c) {
        (c as nat - '0' as nat) as nat
    } else {
        0
    }
}

/// The number that a sequence of decimal digits denotes in base 10.
pub open spec fn digits_value(digits: Seq<char>) -> nat
    decreases digits.len(),
{
    if digits.len() == 0 {
        0
    } else {
        digits_value(digits.drop_last()) * 10 + digit_value(digits.last())
    }
}

/// A token of `len` characters at `pos`, with the position behind it.
pub open spec fn spanned(src: Seq<char>, pos: int, len: int, kind: TokenKind, line: usize) -> (
    TokenView,
    int,
) {
    (TokenView { kind, literal: src.subrange(pos, pos + len), line }, pos + len)
}

/// The token that starts exactly at `pos`, on line `line`, with the position
/// behind it; or the error that the character at `pos` gives.
pub open spec fn scan_token(src: Seq<char>, pos: int, line: usize) -> Result<
    (TokenView, int),
    LexError,
> {
    if !(0 <= pos < src.len()) {
        Ok((TokenView { kind: TokenKind::EOF, literal: Seq::empty(), line }, pos))
    } else {
        let c = src[pos];
        let before_eq = pos + 1 < src.len() && src[pos + 1] == '=';
        if c == '=' {
            if before_eq {
                Ok(spanned(src, pos, 2, TokenKind::Eq, line))
            } else {
                Ok(spanned(src, pos, 1, TokenKind::Assign, line))
            }
        } else if c == '!' {
            if before_eq {
                Ok(spanned(src, pos, 2, TokenKind::NotEq, line))
            } else {
                Err(LexError { character: c, line })
            }
        } else if c == '>' {
            if before_eq {
                Ok(spanned(src, pos, 2, TokenKind::GtEq, line))
            } else {
                Ok(spanned(src, pos, 1, TokenKind::Gt, line))
            }
        } else if c == '<' {
            if before_eq {
                Ok(spanned(src, pos, 2, TokenKind::LtEq, line))
            } else {
                Ok(spanned(src, pos, 1, TokenKind::Lt, line))
            }
        } else if c == '+' {
            Ok(spanned(src, pos, 1, TokenKind::Plus, line))
        } else if c == '-' {
            Ok(spanned(src, pos, 1, TokenKind::Minus, line))
        } else if c == '*' {
            Ok(spanned(src, pos, 1, TokenKind::Star, line))
        } else if c == '/' {
            Ok(spanned(src, pos, 1, TokenKind::Slash, line))
        } else if is_digit(c) {
            let end = run_end(src, pos, CharClass::Digit);
            let value = digits_value(src.subrange(pos, end));
            if value <= i64::MAX {
                Ok(spanned(src, pos, end - pos, TokenKind::Number(value as i64), line))
            } else {
                Err(LexError { character: c, line })
            }
        } else if is_letter(c) {
            let end = run_end(src, pos, CharClass::Word);
            Ok(spanned(src, pos, end - pos, TokenKind::Ident(src.subrange(pos, end)), line))
        } else {
            Err(LexError { character: c, line })
        }
    }
}

/// Where the next token starts when reading resumes at `pos`: behind the
/// whitespace there.
pub open spec fn token_start(src: Seq<char>, pos: int) -> int {
    run_end(src, pos, CharClass::Space)
}

/// The line of the next token when reading resumes at `pos` on line `line`.
pub open spec fn token_line(src: Seq<char>, pos: int, line: usize) -> usize {
    line_through(src, pos, token_start(src, pos), line)
}

/// The next token when reading resumes at `pos` on line `line`, with the
/// position behind it.
pub open spec fn next_token_at(src: Seq<char>, pos: int, line: usize) -> Result<
    (TokenView, int),
    LexError,
> {
    scan_token(src, token_start(src, pos), token_line(src, pos, line))
}

/// A run starts no earlier than `pos`, ends no later than the text, holds
/// only characters of its class, and is not followed by one.
pub proof fn lemma_run_end(src: Seq<char>, pos: int, class: CharClass)
    requires
        0 <= pos <= src.len(),
    ensures
        pos <= run_end(src, pos, class) <= src.len(),
        forall|i: int| pos <= i < run_end(src, pos, class) ==> in_class(#[trigger] src[i], class),
        run_end(src, pos, class) < src.len() ==> !in_class(
            src[run_end(src, pos, class)],
            class,
        ),
    decreases src.len() - pos,
{
    if pos < src.len() && in_class(src[pos], class) {
        lemma_run_end(src, pos + 1, class);
    }
}

/// A token other than the end of input is not empty: the position behind it
/// is past the one at which reading resumed.
pub proof fn lemma_next_token_advances(src: Seq<char>, pos: int, line: usize)
    requires
        0 <= pos <= src.len(),
    ensures
        next_token_at(src, pos, line) matches Ok((token, next)) ==> {
            &&& pos <= next <= src.len()
            &&& token.line == token_line(src, pos, line)
            &&& token.kind is EOF <==> token_start(src, pos) == src.len()
            &&& !(token.kind is EOF) ==> pos < next
        },
{
    lemma_run_end(src, pos, CharClass::Space);
    let start = token_start(src, pos);
    if start < src.len() {
        lemma_run_end(src, start, CharClass::Digit);
        lemma_run_end(src, start, CharClass::Word);
        assert(in_class(src[start], CharClass::Digit) ==> run_end(src, start, CharClass::Digit)
            == run_end(src, start + 1, CharClass::Digit));
        assert(in_class(src[start], CharClass::Word) ==> run_end(src, start, CharClass::Word)
            == run_end(src, start + 1, CharClass::Word));
        lemma_run_end(src, start + 1, CharClass::Digit);
        lemma_run_end(src, start + 1, CharClass::Word);
    }
}

/// The tokens of `src` from `pos` on, the end of input last; or the first
/// error.
pub open spec fn tokens_from(src: Seq<char>, pos: int, line: usize) -> Result<
    Seq<TokenView>,
    LexError,
>
    decreases src.len() - pos,
    when 0 <= pos <= src.len()
{
    match next_token_at(src, pos, line) {
        Err(e) => Err(e),
        Ok((token, next)) => {
            if token.kind is EOF {
                Ok(seq![token])
            } else {
                proof {
                    lemma_next_token_advances(src, pos, line);
                }
                match tokens_from(src, next, token.line) {
                    Ok(rest) => Ok(seq![token] + rest),
                    Err(e) => Err(e),
                }
            }
        },
    }
}

/// The tokens of a source text; or the first error in it.
pub open spec fn tokens_of(src: Seq<char>) -> Result<Seq<TokenView>, LexError> {
    tokens_from(src, 0, 1)
}

/// A cursor over a source text that hands out its tokens one by one.
pub struct Lexer {
    input: Vec<char>,
    position: usize,
    line: usize,
}

impl Lexer {
    #[verifier::type_invariant]
    spec fn within_input(self) -> bool {
        self.position <= self.input.len()
    }

    /// The text being read.
    pub closed spec fn source(self) -> Seq<char> {
        self.input@
    }

    /// How many characters have been read.
    pub closed spec fn position(self) -> int {
        self.position as int
    }

    /// The line of the next character to be read.
    pub closed spec fn line(self) -> usize {
        self.line
    }

    /// A lexer at the start of `input`, on line 1.
    pub fn new(input: String) -> (lexer: Lexer)
        ensures
            lexer.source() == input@,
            lexer.position() == 0,
            lexer.line() == 1,
    {
        Lexer { input: chars_of(input.as_str()), position: 0, line: 1 }
    }

    /// Reads one character, if there is one left: moves the cursor over it
    /// and counts the line where it is a newline. At the end of the text
    /// nothing changes, however often this is called.
    fn read_char(&mut self)
        ensures
            final(self).source() == old(self).source(),
            old(self).position() < old(self).source().len() ==> {
                &&& final(self).position() == old(self).position() + 1
                &&& final(self).line() == line_after(
                    old(self).line(),
                    old(self).source()[old(self).position()],
                )
            },
            old(self).position() >= old(self).source().len() ==> {
                &&& final(self).position() == old(self).position()
                &&& final(self).line() == old(self).line()
            },
    {
        let len = self.input.len();
        if self.position < len {
            if self.input[self.position] == '\n' && self.line < usize::MAX {
                self.line = self.line + 1;
            }
            self.position = self.position + 1;
        }
    }

    /// Reads the whitespace in front of the next token.
    fn skip_whitespace(&mut self)
        ensures
            final(self).source() == old(self).source(),
            final(self).position() == token_start(old(self).source(), old(self).position()),
            final(self).position() <= old(self).source().len(),
            final(self).line() == token_line(
                old(self).source(),
                old(self).position(),
                old(self).line(),
            ),
    {
        proof {
            use_type_invariant(&*self);
        }
        while self.position < self.input.len() && is_space_char(self.input[self.position])
            invariant
                self.source() == old(self).source(),
                old(self).position() <= self.position() <= self.source().len(),
                token_start(self.source(), self.position()) == token_start(
                    old(self).source(),
                    old(self).position(),
                ),
                self.line() == line_through(
                    self.source(),
                    old(self).position(),
                    self.position(),
                    old(self).line(),
                ),
            decreases self.source().len() - self.position(),
        {
            self.read_char();
        }
    }

    /// The end of the digits that start at the cursor, and their value where
    /// it fits an `i64`.
    fn read_number(&self) -> (res: (usize, Option<i64>))
        requires
            self.position() < self.source().len(),
        ensures
            res.0 == run_end(self.source(), self.position(), CharClass::Digit),
            self.position() <= res.0 <= self.source().len(),
            match res.1 {
                Some(value) => value == digits_value(
                    self.source().subrange(self.position(), res.0 as int),
                ),
                None => digits_value(self.source().subrange(self.position(), res.0 as int))
                    > i64::MAX,
            },
    {
        let ghost src = self.input@;
        let ghost start = self.position as int;
        let mut end: usize = self.position;
        let mut value: Option<i64> = Some(0);
        while end < self.input.len() && is_digit_char(self.input[end])
            invariant
                src == self.input@,
                start == self.position,
                start <= end <= src.len(),
                run_end(src, end as int, CharClass::Digit) == run_end(src, start, CharClass::Digit),
                match value {
                    Some(v) => v == digits_value(src.subrange(start, end as int)),
                    None => digits_value(src.subrange(start, end as int)) > i64::MAX,
                },
            decreases src.len() - end,
        {
            let digit: i64 = digit_of(self.input[end]);
            assert(src.subrange(start, end + 1).drop_last() == src.subrange(start, end as int));
            value =
            match value {
                Some(v) => match v.checked_mul(10) {
                    Some(tens) => tens.checked_add(digit),
                    None => None,
                },
                None => None,
            };
            end = end + 1;
        }
        (end, value)
    }

    /// The end of the identifier that starts at the cursor.
    fn read_ident(&self) -> (end: usize)
        requires
            self.position() < self.source().len(),
        ensures
            end == run_end(self.source(), self.position(), CharClass::Word),
            self.position() <= end <= self.source().len(),
    {
        let mut end: usize = self.position;
        while end < self.input.len() && is_word_char(self.input[end])
            invariant
                self.position <= end <= self.input.len(),
                run_end(self.input@, end as int, CharClass::Word) == run_end(
                    self.input@,
                    self.position as int,
                    CharClass::Word,
                ),
            decreases self.input.len() - end,
        {
            end = end + 1;
        }
        end
    }

    /// The token of `kind` made of the characters from the cursor to `end`;
    /// moves the cursor to `end`.
    fn take(&mut self, end: usize, kind: TokenType) -> (token: Token)
        requires
            old(self).position() <= end <= old(self).source().len(),
        ensures
            final(self).source() == old(self).source(),
            final(self).position() == end,
            final(self).line() == old(self).line(),
            token@ == (TokenView {
                kind: kind@,
                literal: old(self).source().subrange(old(self).position(), end as int),
                line: old(self).line(),
            }),
    {
        let literal = string_of(&self.input, self.position, end);
        self.position = end;
        Token { token_type: kind, literal, line: self.line }
    }

    /// Reads the next token: skips whitespace, then reads the longest token
    /// that starts there. At the end of the text it returns `EOF`, again and
    /// again. On an error the cursor stays at the offending character.
    pub fn next_token(&mut self) -> (result: Result<Token, LexError>)
        ensures
            final(self).source() == old(self).source(),
            final(self).position() <= old(self).source().len(),
            match next_token_at(old(self).source(), old(self).position(), old(self).line()) {
                Ok((token, next)) => {
                    &&& result matches Ok(t)
                    &&& t@ == token
                    &&& final(self).position() == next
                    &&& final(self).line() == token.line
                },
                Err(e) => {
                    &&& result == Err::<Token, LexError>(e)
                    &&& final(self).position() == token_start(
                        old(self).source(),
                        old(self).position(),
                    )
                    &&& final(self).line() == e.line
                },
            },
    {
        self.skip_whitespace();
        proof {
            use_type_invariant(&*self);
        }
        let line = self.line;
        let start = self.position;
        if start >= self.input.len() {
            return Ok(Token { token_type: TokenType::EOF, literal: String::new(), line });
        }
        let c = self.input[start];
        let before_eq = start + 1 < self.input.len() && self.input[start + 1] == '=';
        if c == '=' {
            if before_eq {
                Ok(self.take(start + 2, TokenType::Eq))
            } else {
                Ok(self.take(start + 1, TokenType::Assign))
            }
        } else if c == '!' {
            if before_eq {
                Ok(self.take(start + 2, TokenType::NotEq))
            } else {
                Err(LexError { character: c, line })
            }
        } else if c == '>' {
            if before_eq {
                Ok(self.take(start + 2, TokenType::GtEq))
            } else {
                Ok(self.take(start + 1, TokenType::Gt))
            }
        } else if c == '<' {
            if before_eq {
                Ok(self.take(start + 2, TokenType::LtEq))
            } else {
                Ok(self.take(start + 1, TokenType::Lt))
            }
        } else if c == '+' {
            Ok(self.take(start + 1, TokenType::Plus))
        } else if c == '-' {
            Ok(self.take(start + 1, TokenType::Minus))
        } else if c == '*' {
            Ok(self.take(start + 1, TokenType::Star))
        } else if c == '/' {
            Ok(self.take(start + 1, TokenType::Slash))
        } else if is_digit_char(c) {
            let (end, value) = self.read_number();
            match value {
                Some(v) => Ok(self.take(end, TokenType::Number(v))),
                None => Err(LexError { character: c, line }),
            }
        } else if is_letter_char(c) {
            let end = self.read_ident();
            let name = string_of(&self.input, start, end);
            Ok(self.take(end, TokenType::Ident(name)))
        } else {
            Err(LexError { character: c, line })
        }
    }
}

fn is_space_char(c: char) -> (b: bool)
    ensures
        b == is_space(c),
{
    c == ' ' || c == '\t' || c == '\n' || c == '\r'
}

fn is_digit_char(c: char) -> (b: bool)
    ensures
        b == is_digit(c),
{
    '0' <= c && c <= '9'
}

fn is_letter_char(c: char) -> (b: bool)
    ensures
        b == is_letter(c),
{
    ('a' <= c && c <= 'z') || ('A' <= c && c <= 'Z') || c == '_'
}

fn is_word_char(c: char) -> (b: bool)
    ensures
        b == in_class(c, CharClass::Word),
{
    is_letter_char(c) || is_digit_char(c)
}

fn digit_of(c: char) -> (d: i64)
    requires
        is_digit(c),
    ensures
        d == digit_value(c),
{
    (c as u32 - '0' as u32) as i64
}

/// Splits a source text into its tokens, the last of them `EOF`; fails on the
/// first character that starts no token, and then returns no token at all.
pub fn tokenize(input: String) -> (result: Result<Vec<Token>, LexError>)
    ensures
        match tokens_of(input@) {
            Ok(tokens) => result matches Ok(found) && token_views(found@) == tokens,
            Err(e) => result == Err::<Vec<Token>, LexError>(e),
        },
{
    let ghost src = input@;
    let mut lexer = Lexer::new(input);
    let mut tokens: Vec<Token> = Vec::new();
    loop
        invariant
            src == input@,
            lexer.source() == src,
            0 <= lexer.position() <= src.len(),
            tokens_of(src) == (match tokens_from(src, lexer.position(), lexer.line()) {
                Ok(rest) => Ok(token_views(tokens@) + rest),
                Err(e) => Err(e),
            }),
        decreases src.len() - lexer.position(),
    {
        proof {
            lemma_next_token_advances(src, lexer.position(), lexer.line());
        }
        let ghost before = token_views(tokens@);
        match lexer.next_token() {
            Err(e) => {
                return Err(e);
            },
            Ok(token) => {
                let done = matches!(token.token_type, TokenType::EOF);
                let ghost view = token@;
                tokens.push(token);
                assert(token_views(tokens@) == before + seq![view]);
                if done {
                    return Ok(tokens);
                }
                let ghost rest = tokens_from(src, lexer.position(), lexer.line())->Ok_0;
                assert(before + seq![view] + rest == before + (seq![view] + rest));
            },
        }
    }
}

} // verus!
