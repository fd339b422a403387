//! What holds of the tokens of every source text.

use vstd::prelude::*;
use crate::lexer::{
    digits_value, in_class, is_digit, is_space, line_through, next_token_at, run_end,
    scan_token, token_line, token_start, tokens_from, tokens_of, lemma_next_token_advances,
    lemma_run_end, CharClass,
};
use crate::text::{decimal, digit_char};
use crate::token::{LexError, TokenKind, TokenView};

verus! {

/// Where every character from `from` up to `to` is of `class`, a run that
/// starts at `from` ends where one that starts at `to` ends.
pub proof fn lemma_run_goes_on(src: Seq<char>, from: int, to: int, class: CharClass)
    requires
        0 <= from <= to <= src.len(),
        forall|i: int| from <= i < to ==> in_class(#[trigger] src[i], class),
    ensures
        run_end(src, from, class) == run_end(src, to, class),
    decreases to - from,
{
    if from < to {
        lemma_run_goes_on(src, from + 1, to, class);
    }
}

/// A run ends at `end` where every character from `pos` up to `end` is of
/// `class` and the one at `end`, if there is one, is not.
pub proof fn lemma_run_ends_at(src: Seq<char>, pos: int, end: int, class: CharClass)
    requires
        0 <= pos <= end <= src.len(),
        forall|i: int| pos <= i < end ==> in_class(#[trigger] src[i], class),
        end < src.len() ==> !in_class(src[end], class),
    ensures
        run_end(src, pos, class) == end,
{
    lemma_run_goes_on(src, pos, end, class);
}

/// Reading never moves the line counter back.
pub proof fn lemma_line_never_decreases(src: Seq<char>, from: int, to: int, line: usize)
    ensures
        line <= line_through(src, from, to, line),
    decreases to - from,
{
    if from < to {
        lemma_line_never_decreases(src, from, to - 1, line);
    }
}

/// The tokens of a text end with one `EOF` token, whose text is empty, and
/// hold no other one.
pub proof fn lemma_one_eof_at_the_end(src: Seq<char>, pos: int, line: usize)
    requires
        0 <= pos <= src.len(),
    ensures
        tokens_from(src, pos, line) matches Ok(tokens) ==> {
            &&& tokens.len() >= 1
            &&& tokens.last().kind is EOF
            &&& tokens.last().literal == Seq::<char>::empty()
            &&& forall|i: int| 0 <= i < tokens.len() - 1 ==> !((#[trigger] tokens[i]).kind is EOF)
        },
    decreases src.len() - pos,
{
    lemma_next_token_advances(src, pos, line);
    if let Ok((token, next)) = next_token_at(src, pos, line) {
        if !(token.kind is EOF) {
            lemma_one_eof_at_the_end(src, next, token.line);
        }
    }
}

/// The lines of the tokens of a text never decrease from one token to the
/// next, and none is below the line on which reading began.
pub proof fn lemma_lines_never_decrease(src: Seq<char>, pos: int, line: usize)
    requires
        0 <= pos <= src.len(),
    ensures
        tokens_from(src, pos, line) matches Ok(tokens) ==> {
            &&& forall|i: int| 0 <= i < tokens.len() ==> line <= (#[trigger] tokens[i]).line
            &&& forall|i: int, j: int|
                0 <= i <= j < tokens.len() ==> (#[trigger] tokens[i]).line <= (
                #[trigger] tokens[j]).line
        },
    decreases src.len() - pos,
{
    lemma_next_token_advances(src, pos, line);
    lemma_line_never_decreases(src, pos, token_start(src, pos), line);
    if let Ok((token, next)) = next_token_at(src, pos, line) {
        if !(token.kind is EOF) {
            lemma_lines_never_decrease(src, next, token.line);
        }
    }
}

/// A text that consists of decimal digits alone, and whose value fits an
/// `i64`, has two tokens: the number of that value, with the text as its
/// literal, and `EOF`, both on line 1.
pub proof fn lemma_number_literal(digits: Seq<char>)
    requires
        digits.len() > 0,
        forall|i: int| 0 <= i < digits.len() ==> is_digit(#[trigger] digits[i]),
        digits_value(digits) <= i64::MAX,
    ensures
        tokens_of(digits) == Ok::<Seq<TokenView>, LexError>(
            seq![
                TokenView {
                    kind: TokenKind::Number(digits_value(digits) as i64),
                    literal: digits,
                    line: 1,
                },
                TokenView { kind: TokenKind::EOF, literal: Seq::empty(), line: 1 },
            ],
        ),
{
    let end = digits.len() as int;
    lemma_run_ends_at(digits, 0, end, CharClass::Digit);
    assert(digits.subrange(0, end) == digits);
    assert(token_start(digits, 0) == 0);
    assert(token_line(digits, 0, 1) == 1);
    let number = TokenView {
        kind: TokenKind::Number(digits_value(digits) as i64),
        literal: digits,
        line: 1,
    };
    assert(next_token_at(digits, 0, 1) == Ok::<(TokenView, int), LexError>((number, end)));
    let eof = TokenView { kind: TokenKind::EOF, literal: Seq::empty(), line: 1 };
    assert(token_start(digits, end) == end);
    assert(token_line(digits, end, 1) == 1);
    assert(tokens_from(digits, end, 1) == Ok::<Seq<TokenView>, LexError>(seq![eof]));
    assert(seq![number] + seq![eof] == seq![number, eof]);
}

/// The decimal numeral of a number consists of digits and denotes that
/// number.
pub proof fn lemma_decimal_denotes(n: nat)
    ensures
        decimal(n).len() > 0,
        forall|i: int| 0 <= i < decimal(n).len() ==> is_digit(#[trigger] decimal(n)[i]),
        digits_value(decimal(n)) == n,
    decreases n,
{
    if n < 10 {
        assert(decimal(n).drop_last() =~= Seq::<char>::empty());
        assert(digits_value(decimal(n).drop_last()) == 0);
    } else {
        lemma_decimal_denotes(n / 10);
        assert(decimal(n).drop_last() =~= decimal(n / 10));
        assert(is_digit(digit_char(n % 10)));
    }
}

/// The decimal numeral of a number that an `i64` holds has two tokens: that
/// number, with the numeral as its literal, and `EOF`, both on line 1.
pub proof fn lemma_numeral_is_number(n: i64)
    requires
        n >= 0,
    ensures
        tokens_of(decimal(n as nat)) == Ok::<Seq<TokenView>, LexError>(
            seq![
                TokenView { kind: TokenKind::Number(n), literal: decimal(n as nat), line: 1 },
                TokenView { kind: TokenKind::EOF, literal: Seq::empty(), line: 1 },
            ],
        ),
{
    lemma_decimal_denotes(n as nat);
    lemma_number_literal(decimal(n as nat));
}

/// A token without its line: its kind and its text.
pub type Lexeme = (TokenKind, Seq<char>);

/// The tokens without their lines.
pub open spec fn lexemes(tokens: Seq<TokenView>) -> Seq<Lexeme> {
    tokens.map_values(|t: TokenView| (t.kind, t.literal))
}

/// What lexing gave, without the lines: the lexemes, or the character that
/// starts no token.
pub open spec fn without_lines(result: Result<Seq<TokenView>, LexError>) -> Result<
    Seq<Lexeme>,
    char,
> {
    match result {
        Ok(tokens) => Ok(lexemes(tokens)),
        Err(e) => Err(e.character),
    }
}

/// The lexemes of one text followed by those of another: the first without
/// its `EOF`, then the second; or the first error of the two.
pub open spec fn joined(first: Result<Seq<Lexeme>, char>, second: Result<Seq<Lexeme>, char>) -> Result<
    Seq<Lexeme>,
    char,
> {
    match first {
        Ok(front) => match second {
            Ok(back) => Ok(front.drop_last() + back),
            Err(c) => Err(c),
        },
        Err(c) => Err(c),
    }
}

/// Whether `text` consists of whitespace alone.
pub open spec fn all_space(text: Seq<char>) -> bool {
    forall|i: int| 0 <= i < text.len() ==> is_space(#[trigger] text[i])
}

/// `longer` holds the characters of `text` from `pos` on, moved by `shift`
/// places, and behind them nothing or whitespace.
pub open spec fn continues(text: Seq<char>, pos: int, longer: Seq<char>, shift: int) -> bool {
    &&& 0 <= pos <= text.len()
    &&& 0 <= shift
    &&& text.len() + shift <= longer.len()
    &&& forall|i: int| pos <= i < text.len() ==> longer[i + shift] == #[trigger] text[i]
    &&& text.len() + shift < longer.len() ==> is_space(longer[text.len() + shift])
}

/// A token is read from `longer` as it is read from `text`, but for its line
/// and for the shift in its position.
pub proof fn lemma_scan_agrees(
    text: Seq<char>,
    pos: int,
    line: usize,
    longer: Seq<char>,
    shift: int,
    other_line: usize,
)
    requires
        continues(text, pos, longer, shift),
        pos < text.len(),
    ensures
        match scan_token(text, pos, line) {
            Ok((token, next)) => {
                &&& pos < next <= text.len()
                &&& !(token.kind is EOF)
                &&& token.line == line
                &&& scan_token(longer, pos + shift, other_line) == Ok::<(TokenView, int), LexError>(
                    (
                        TokenView { kind: token.kind, literal: token.literal, line: other_line },
                        next + shift,
                    ),
                )
            },
            Err(e) => scan_token(longer, pos + shift, other_line) == Err::<
                (TokenView, int),
                LexError,
            >(LexError { character: e.character, line: other_line }),
        },
{
    let c = text[pos];
    assert(longer[pos + shift] == c);
    if pos + 1 < text.len() {
        assert(longer[pos + 1 + shift] == text[pos + 1]);
    }
    assert(longer.subrange(pos + shift, pos + shift + 1) == text.subrange(pos, pos + 1));
    if pos + 2 <= text.len() {
        assert(longer.subrange(pos + shift, pos + shift + 2) == text.subrange(pos, pos + 2));
    }
    lemma_run_agrees(text, pos, longer, shift, CharClass::Digit);
    lemma_run_agrees(text, pos, longer, shift, CharClass::Word);
    let digits_end = run_end(text, pos, CharClass::Digit);
    let word_end = run_end(text, pos, CharClass::Word);
    assert(longer.subrange(pos + shift, digits_end + shift) == text.subrange(pos, digits_end));
    assert(longer.subrange(pos + shift, word_end + shift) == text.subrange(pos, word_end));
    assert(in_class(c, CharClass::Digit) ==> digits_end == run_end(
        text,
        pos + 1,
        CharClass::Digit,
    ));
    assert(in_class(c, CharClass::Word) ==> word_end == run_end(text, pos + 1, CharClass::Word));
    lemma_run_end(text, pos + 1, CharClass::Digit);
    lemma_run_end(text, pos + 1, CharClass::Word);
}

/// A run of digits or of word characters ends in `longer` where it ends in
/// `text`, but for the shift.
pub proof fn lemma_run_agrees(
    text: Seq<char>,
    pos: int,
    longer: Seq<char>,
    shift: int,
    class: CharClass,
)
    requires
        continues(text, pos, longer, shift),
        !(class is Space),
    ensures
        pos <= run_end(text, pos, class) <= text.len(),
        run_end(longer, pos + shift, class) == run_end(text, pos, class) + shift,
{
    lemma_run_end(text, pos, class);
    let end = run_end(text, pos, class);
    assert forall|i: int| pos + shift <= i < end + shift implies in_class(
        #[trigger] longer[i],
        class,
    ) by {
        assert(longer[i] == text[i - shift]);
    }
    if end < text.len() {
        assert(longer[end + shift] == text[end]);
    }
    lemma_run_ends_at(longer, pos + shift, end + shift, class);
}

/// From two places of a text in front of the same token, on whatever lines,
/// the same lexemes are read.
pub proof fn lemma_lines_do_not_matter(
    src: Seq<char>,
    pos: int,
    line: usize,
    other_pos: int,
    other_line: usize,
)
    requires
        0 <= pos <= src.len(),
        0 <= other_pos <= src.len(),
        token_start(src, pos) == token_start(src, other_pos),
    ensures
        without_lines(tokens_from(src, pos, line)) == without_lines(
            tokens_from(src, other_pos, other_line),
        ),
    decreases src.len() - token_start(src, pos),
{
    lemma_run_end(src, pos, CharClass::Space);
    let start = token_start(src, pos);
    let here = token_line(src, pos, line);
    let there = token_line(src, other_pos, other_line);
    let one = tokens_from(src, pos, line);
    let two = tokens_from(src, other_pos, other_line);
    assert(next_token_at(src, pos, line) == scan_token(src, start, here));
    assert(next_token_at(src, other_pos, other_line) == scan_token(src, start, there));
    if start < src.len() {
        assert(continues(src, start, src, 0));
        lemma_scan_agrees(src, start, here, src, 0, there);
        match scan_token(src, start, here) {
            Ok((token, next)) => {
                let other = TokenView { kind: token.kind, literal: token.literal, line: there };
                lemma_run_end(src, next, CharClass::Space);
                lemma_lines_do_not_matter(src, next, here, next, there);
                lemma_lexemes_of_first_and_rest(token, tokens_from(src, next, here));
                lemma_lexemes_of_first_and_rest(other, tokens_from(src, next, there));
                assert(one == (match tokens_from(src, next, here) {
                    Ok(rest) => Ok::<Seq<TokenView>, LexError>(seq![token] + rest),
                    Err(e) => Err(e),
                }));
                assert(two == (match tokens_from(src, next, there) {
                    Ok(rest) => Ok::<Seq<TokenView>, LexError>(seq![other] + rest),
                    Err(e) => Err(e),
                }));
            },
            Err(e) => {
                assert(one == Err::<Seq<TokenView>, LexError>(e));
            },
        }
    } else {
        let eof = TokenView { kind: TokenKind::EOF, literal: Seq::empty(), line: here };
        let other = TokenView { kind: TokenKind::EOF, literal: Seq::empty(), line: there };
        assert(one == Ok::<Seq<TokenView>, LexError>(seq![eof]));
        assert(two == Ok::<Seq<TokenView>, LexError>(seq![other]));
        assert(lexemes(seq![eof]) =~= lexemes(seq![other]));
    }
}

/// The lexemes of a token followed by more tokens.
proof fn lemma_lexemes_of_first_and_rest(
    token: TokenView,
    rest: Result<Seq<TokenView>, LexError>,
)
    ensures
        rest matches Ok(tokens) ==> lexemes(seq![token] + tokens) == seq![
            (token.kind, token.literal),
        ] + lexemes(tokens),
{
    if let Ok(tokens) = rest {
        assert(lexemes(seq![token] + tokens) =~= seq![(token.kind, token.literal)] + lexemes(
            tokens,
        ));
    }
}

/// The lexemes read from `longer` at the place where it holds `text` are
/// those of `text`, followed by what `longer` holds behind `text`.
pub proof fn lemma_tokens_continue(
    text: Seq<char>,
    pos: int,
    line: usize,
    longer: Seq<char>,
    shift: int,
    other_line: usize,
    rest_line: usize,
)
    requires
        continues(text, pos, longer, shift),
    ensures
        without_lines(tokens_from(longer, pos + shift, other_line)) == joined(
            without_lines(tokens_from(text, pos, line)),
            without_lines(tokens_from(longer, text.len() + shift, rest_line)),
        ),
    decreases text.len() - pos,
{
    lemma_run_end(text, pos, CharClass::Space);
    let start = token_start(text, pos);
    let here = token_line(text, pos, line);
    let there = token_line(longer, pos + shift, other_line);
    let one = tokens_from(text, pos, line);
    let two = tokens_from(longer, pos + shift, other_line);
    let behind = without_lines(tokens_from(longer, text.len() + shift, rest_line));
    assert forall|i: int| pos + shift <= i < start + shift implies in_class(
        #[trigger] longer[i],
        CharClass::Space,
    ) by {
        assert(longer[i] == text[i - shift]);
    }
    assert(next_token_at(text, pos, line) == scan_token(text, start, here));
    if start < text.len() {
        assert(longer[start + shift] == text[start]);
        lemma_run_ends_at(longer, pos + shift, start + shift, CharClass::Space);
        assert(next_token_at(longer, pos + shift, other_line) == scan_token(
            longer,
            start + shift,
            there,
        ));
        assert(continues(text, start, longer, shift));
        lemma_scan_agrees(text, start, here, longer, shift, there);
        match scan_token(text, start, here) {
            Ok((token, next)) => {
                let other = TokenView { kind: token.kind, literal: token.literal, line: there };
                assert(continues(text, next, longer, shift));
                lemma_tokens_continue(text, next, here, longer, shift, there, rest_line);
                lemma_one_eof_at_the_end(text, next, here);
                let tail = tokens_from(text, next, here);
                let other_tail = tokens_from(longer, next + shift, there);
                lemma_lexemes_of_first_and_rest(token, tail);
                lemma_lexemes_of_first_and_rest(other, other_tail);
                assert(one == (match tail {
                    Ok(rest) => Ok::<Seq<TokenView>, LexError>(seq![token] + rest),
                    Err(e) => Err(e),
                }));
                assert(two == (match other_tail {
                    Ok(rest) => Ok::<Seq<TokenView>, LexError>(seq![other] + rest),
                    Err(e) => Err(e),
                }));
                if let Ok(rest) = tail {
                    if let Ok(back) = behind {
                        let first = seq![(token.kind, token.literal)];
                        assert((first + lexemes(rest)).drop_last() + back =~= first + (lexemes(
                            rest,
                        ).drop_last() + back));
                    }
                }
            },
            Err(e) => {
                assert(one == Err::<Seq<TokenView>, LexError>(e));
            },
        }
    } else {
        lemma_run_goes_on(longer, pos + shift, text.len() + shift, CharClass::Space);
        lemma_lines_do_not_matter(longer, pos + shift, other_line, text.len() + shift, rest_line);
        let eof = TokenView { kind: TokenKind::EOF, literal: Seq::empty(), line: here };
        assert(one == Ok::<Seq<TokenView>, LexError>(seq![eof]));
        if let Ok(back) = behind {
            assert(lexemes(seq![eof]).drop_last() + back =~= back);
        }
    }
}

/// Whitespace separates: the lexemes of two texts with whitespace between
/// them are the lexemes of the first, without its `EOF`, followed by those of
/// the second. Where one of the two has a character that starts no token,
/// so has the whole, and the first such character is reported.
pub proof fn lemma_whitespace_separates(front: Seq<char>, gap: Seq<char>, back: Seq<char>)
    requires
        gap.len() > 0,
        all_space(gap),
    ensures
        without_lines(tokens_of(front + gap + back)) == joined(
            without_lines(tokens_of(front)),
            without_lines(tokens_of(back)),
        ),
{
    let whole = front + gap + back;
    let gap_start = front.len() as int;
    let back_start = (front.len() + gap.len()) as int;
    assert(whole[gap_start] == gap[0]);
    assert(continues(front, 0, whole, 0));
    lemma_tokens_continue(front, 0, 1, whole, 0, 1, 1);
    assert forall|i: int| gap_start <= i < back_start implies in_class(
        #[trigger] whole[i],
        CharClass::Space,
    ) by {
        assert(whole[i] == gap[i - gap_start]);
    }
    lemma_run_goes_on(whole, gap_start, back_start, CharClass::Space);
    lemma_lines_do_not_matter(whole, gap_start, 1, back_start, 1);
    assert(continues(back, 0, whole, back_start));
    lemma_tokens_continue(back, 0, 1, whole, back_start, 1, 1);
    let end = whole.len() as int;
    let eof = TokenView { kind: TokenKind::EOF, literal: Seq::empty(), line: 1 };
    assert(token_start(whole, end) == end);
    assert(tokens_from(whole, end, 1) == Ok::<Seq<TokenView>, LexError>(seq![eof]));
    lemma_one_eof_at_the_end(back, 0, 1);
    if let Ok(tokens) = tokens_of(back) {
        assert(lexemes(tokens).drop_last() + lexemes(seq![eof]) =~= lexemes(tokens));
    }
}

/// Whitespace between two tokens changes no lexeme. Let a text be cut in two
/// between two of its tokens: its lexemes are those of the first part,
/// without the `EOF`, followed by those of the second. Then the text with any
/// whitespace put in at the cut has the same lexemes, and fails with the same
/// character where it fails. Only lines may differ.
pub proof fn lemma_whitespace_between_tokens(front: Seq<char>, gap: Seq<char>, back: Seq<char>)
    requires
        all_space(gap),
        without_lines(tokens_of(front + back)) == joined(
            without_lines(tokens_of(front)),
            without_lines(tokens_of(back)),
        ),
    ensures
        without_lines(tokens_of(front + gap + back)) == without_lines(tokens_of(front + back)),
{
    if gap.len() == 0 {
        assert(front + gap + back == front + back);
    } else {
        lemma_whitespace_separates(front, gap, back);
    }
}

/// Whitespace in front of a text or behind it changes no lexeme.
pub proof fn lemma_whitespace_around(gap: Seq<char>, text: Seq<char>)
    requires
        all_space(gap),
    ensures
        without_lines(tokens_of(gap + text)) == without_lines(tokens_of(text)),
        without_lines(tokens_of(text + gap)) == without_lines(tokens_of(text)),
{
    let nothing = Seq::<char>::empty();
    let eof = TokenView { kind: TokenKind::EOF, literal: Seq::empty(), line: 1 };
    assert(token_start(nothing, 0) == 0);
    assert(tokens_of(nothing) == Ok::<Seq<TokenView>, LexError>(seq![eof]));
    assert(nothing + gap + text == gap + text);
    assert(text + gap + nothing == text + gap);
    if gap.len() == 0 {
        assert(gap + text == text);
        assert(text + gap == text);
    } else {
        lemma_whitespace_separates(nothing, gap, text);
        lemma_whitespace_separates(text, gap, nothing);
        lemma_one_eof_at_the_end(text, 0, 1);
        if let Ok(tokens) = tokens_of(text) {
            assert(lexemes(seq![eof]).drop_last() + lexemes(tokens) =~= lexemes(tokens));
            assert(lexemes(tokens).drop_last() + lexemes(seq![eof]) =~= lexemes(tokens));
        }
    }
}

} // verus!
