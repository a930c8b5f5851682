//! The lexer: source text to a flat sequence of tokens.
//!
//! The model of the source is its sequence of characters. [`lex`] says which
//! tokens a text holds; [`tokenize`] computes them.

use crate::text::{
    all_decimal_digits, chars_of, decimal, decimal_string, decimal_value,
    lemma_decimal_value_prefix,
};
use vstd::prelude::*;
use vstd::string::*;

verus! {

/// One lexical unit of the source text. Text-carrying tokens borrow their
/// text from the source.
#[derive(Debug, PartialEq, Clone, Copy)]
pub enum Token<'a> {
    OpenParen,
    CloseParen,
    OpenBrace,
    CloseBrace,
    Semicolon,
    /// An operator such as `=`, `==` or `+`.
    Operator(&'a str),
    /// A reserved word such as `int`, `if` or `return`.
    Keyword(&'a str),
    /// A name such as `myvar` or `main`.
    Identifier(&'a str),
    /// An unsigned number such as `0`, `1` or `500`.
    IntegerLiteral(u64),
    /// The text between two double quotes.
    StringLiteral(&'a str),
}

/// The mathematical value of a [`Token`]: its text is a sequence of
/// characters.
pub enum TokenView {
    OpenParen,
    CloseParen,
    OpenBrace,
    CloseBrace,
    Semicolon,
    Operator(Seq<char>),
    Keyword(Seq<char>),
    Identifier(Seq<char>),
    IntegerLiteral(u64),
    StringLiteral(Seq<char>),
}

impl<'a> View for Token<'a> {
    type V = TokenView;

    open spec fn view(&self) -> TokenView {
        match *self {
            Token::OpenParen => TokenView::OpenParen,
            Token::CloseParen => TokenView::CloseParen,
            Token::OpenBrace => TokenView::OpenBrace,
            Token::CloseBrace => TokenView::CloseBrace,
            Token::Semicolon => TokenView::Semicolon,
            Token::Operator(text) => TokenView::Operator(text@),
            Token::Keyword(text) => TokenView::Keyword(text@),
            Token::Identifier(text) => TokenView::Identifier(text@),
            Token::IntegerLiteral(value) => TokenView::IntegerLiteral(value),
            Token::StringLiteral(text) => TokenView::StringLiteral(text@),
        }
    }
}

impl<'a> Token<'a> {
    /// True when the two tokens are of the same kind and carry the same text
    /// or number.
    pub fn same_as(&self, other: &Token) -> (same: bool)
        ensures
            same == (self@ == other@),
    {
        match (*self, *other) {
            (Token::OpenParen, Token::OpenParen) => true,
            (Token::CloseParen, Token::CloseParen) => true,
            (Token::OpenBrace, Token::OpenBrace) => true,
            (Token::CloseBrace, Token::CloseBrace) => true,
            (Token::Semicolon, Token::Semicolon) => true,
            (Token::Operator(a), Token::Operator(b)) => *a == *b,
            (Token::Keyword(a), Token::Keyword(b)) => *a == *b,
            (Token::Identifier(a), Token::Identifier(b)) => *a == *b,
            (Token::IntegerLiteral(a), Token::IntegerLiteral(b)) => a == b,
            (Token::StringLiteral(a), Token::StringLiteral(b)) => *a == *b,
            _ => false,
        }
    }
}

/// A token as the source writes it: a punctuation mark, the text of an
/// operator, keyword or identifier, a number in decimal notation, or the
/// text of a string literal between double quotes.
pub open spec fn token_text(token: TokenView) -> Seq<char> {
    match token {
        TokenView::OpenParen => "("@,
        TokenView::CloseParen => ")"@,
        TokenView::OpenBrace => "{"@,
        TokenView::CloseBrace => "}"@,
        TokenView::Semicolon => ";"@,
        TokenView::Operator(text) => text,
        TokenView::Keyword(text) => text,
        TokenView::Identifier(text) => text,
        TokenView::IntegerLiteral(value) => decimal(value as nat),
        TokenView::StringLiteral(text) => "\""@ + text + "\""@,
    }
}

impl<'a> Token<'a> {
    /// The token as the source writes it.
    pub fn text(&self) -> (text: String)
        ensures
            text@ == token_text(self@),
    {
        match *self {
            Token::OpenParen => String::from_str("("),
            Token::CloseParen => String::from_str(")"),
            Token::OpenBrace => String::from_str("{"),
            Token::CloseBrace => String::from_str("}"),
            Token::Semicolon => String::from_str(";"),
            Token::Operator(text) => String::from_str(text),
            Token::Keyword(text) => String::from_str(text),
            Token::Identifier(text) => String::from_str(text),
            Token::IntegerLiteral(value) => decimal_string(value),
            Token::StringLiteral(text) => {
                let mut quoted = String::from_str("\"");
                quoted.append(text);
                quoted.append("\"");
                quoted
            },
        }
    }
}

/// The values of a sequence of tokens, one for one.
pub open spec fn token_views(tokens: Seq<Token>) -> Seq<TokenView> {
    tokens.map_values(|t: Token| t@)
}

/// Why a text could not be split into tokens.
#[derive(Debug, PartialEq, Eq, Clone, Copy, Structural)]
pub enum TokenizeError {
    /// A character that starts no token, with its byte offset in the source.
    UnexpectedCharacter { position: usize, character: char },
    /// A string literal whose closing quote is missing, with the byte offset
    /// of its opening quote.
    UnterminatedString { position: usize },
}

/// The text of a [`TokenizeError`].
pub open spec fn tokenize_error_text(error: TokenizeError) -> Seq<char> {
    match error {
        TokenizeError::UnexpectedCharacter { position, character } => {
            "Tokenization error at position "@ + decimal(position as nat) + " character "@
                + seq![character]
        },
        TokenizeError::UnterminatedString { position } => {
            "Tokenization error at position "@ + decimal(position as nat)
                + ": string literal without closing quote"@
        },
    }
}

impl TokenizeError {
    /// The error in words, with the position and the character it names.
    pub fn message(&self) -> (text: String)
        ensures
            text@ == tokenize_error_text(*self),
    {
        let mut text = String::from_str("Tokenization error at position ");
        match *self {
            TokenizeError::UnexpectedCharacter { position, character } => {
                text.append(decimal_string(position as u64).as_str());
                text.append(" character ");
                text.push(character);
            },
            TokenizeError::UnterminatedString { position } => {
                text.append(decimal_string(position as u64).as_str());
                text.append(": string literal without closing quote");
            },
        }
        text
    }
}

/// Whether `char::is_whitespace` holds of `c`: the Unicode property
/// `White_Space`.
pub uninterp spec fn char_is_whitespace(c: char) -> bool;

/// Whether `char::is_alphanumeric` holds of `c`: the Unicode categories of
/// letters and numbers.
pub uninterp spec fn char_is_alphanumeric(c: char) -> bool;

/// `char::is_whitespace` depends on the character alone; its result is
/// [`char_is_whitespace`].
pub assume_specification[ char::is_whitespace ](c: char) -> (b: bool)
    ensures
        b == char_is_whitespace(c),
;

/// `char::is_alphanumeric` depends on the character alone; its result is
/// [`char_is_alphanumeric`].
pub assume_specification[ char::is_alphanumeric ](c: char) -> (b: bool)
    ensures
        b == char_is_alphanumeric(c),
;

/// What the standard library tells of one character: whether it is white
/// space, and whether it is a letter or a digit of some script.
#[derive(Debug, PartialEq, Eq, Clone, Copy, Structural)]
pub struct CharClass {
    pub whitespace: bool,
    pub alphanumeric: bool,
}

/// The class of the character `c`.
pub open spec fn class_of(c: char) -> CharClass {
    CharClass { whitespace: char_is_whitespace(c), alphanumeric: char_is_alphanumeric(c) }
}

/// The classes of the characters of `s`, one for one.
pub open spec fn classes_of(s: Seq<char>) -> Seq<CharClass> {
    s.map_values(|c: char| class_of(c))
}

/// True when the character `pos` of `s` can stand in a keyword, an
/// identifier or a number: it is alphanumeric, or the underscore.
pub open spec fn is_word_char(s: Seq<char>, classes: Seq<CharClass>, pos: int) -> bool {
    classes[pos].alphanumeric || s[pos] == '_'
}

/// True for the operators that the lexer knows: `+`, `-`, `=` and `==`.
pub open spec fn is_operator(w: Seq<char>) -> bool {
    w == seq!['+'] || w == seq!['-'] || w == seq!['='] || w == seq!['=', '=']
}

/// True for the reserved words: `int`, `return`, `if` and `else`.
pub open spec fn is_keyword(w: Seq<char>) -> bool {
    w == "int"@ || w == "return"@ || w == "if"@ || w == "else"@
}

/// True when `w` writes a number that fits in 64 bits.
pub open spec fn is_u64_literal(w: Seq<char>) -> bool {
    w.len() > 0 && all_decimal_digits(w) && decimal_value(w) <= u64::MAX
}

/// The length of the longest operator that starts at `pos`; zero when none
/// does. The longest wins: `==` is one operator, not two.
pub open spec fn operator_len(s: Seq<char>, pos: int) -> nat {
    if pos + 2 <= s.len() && is_operator(s.subrange(pos, pos + 2)) {
        2
    } else if pos + 1 <= s.len() && is_operator(s.subrange(pos, pos + 1)) {
        1
    } else {
        0
    }
}

/// The number of characters from `pos` on that come before the next double
/// quote, or before the end of the text when no quote follows.
pub open spec fn unquoted_len(s: Seq<char>, pos: int) -> nat
    decreases s.len() - pos,
{
    if 0 <= pos < s.len() && s[pos] != '"' {
        1 + unquoted_len(s, pos + 1)
    } else {
        0
    }
}

/// The length of the longest run of word characters that starts at `pos`.
pub open spec fn word_len(s: Seq<char>, classes: Seq<CharClass>, pos: int) -> nat
    decreases s.len() - pos,
{
    if 0 <= pos < s.len() && is_word_char(s, classes, pos) {
        1 + word_len(s, classes, pos + 1)
    } else {
        0
    }
}

/// The token that a run of word characters forms: a keyword if it is one of
/// the reserved words, else a number if it reads as one that fits in 64 bits,
/// else an identifier.
pub open spec fn classify_word(w: Seq<char>) -> TokenView {
    if is_keyword(w) {
        TokenView::Keyword(w)
    } else if is_u64_literal(w) {
        TokenView::IntegerLiteral(decimal_value(w) as u64)
    } else {
        TokenView::Identifier(w)
    }
}

/// The number of bytes that the first `pos` characters of `s` take in UTF-8.
pub open spec fn byte_offset(s: Seq<char>, pos: int) -> usize {
    vstd::utf8::encode_utf8(s.subrange(0, pos)).len() as usize
}

/// The token that starts at the character `pos` of `s`, with the number of
/// characters it takes, or the reason why no token starts there. The
/// characters of `s` have the classes `classes`.
pub open spec fn token_at(s: Seq<char>, classes: Seq<CharClass>, pos: int) -> Result<
    (TokenView, nat),
    TokenizeError,
>
    recommends
        0 <= pos < s.len(),
{
    let c = s[pos];
    if c == '(' {
        Ok((TokenView::OpenParen, 1))
    } else if c == ')' {
        Ok((TokenView::CloseParen, 1))
    } else if c == '{' {
        Ok((TokenView::OpenBrace, 1))
    } else if c == '}' {
        Ok((TokenView::CloseBrace, 1))
    } else if c == ';' {
        Ok((TokenView::Semicolon, 1))
    } else if operator_len(s, pos) > 0 {
        Ok((TokenView::Operator(s.subrange(pos, pos + operator_len(s, pos))), operator_len(s, pos)))
    } else if c == '"' {
        let inner = unquoted_len(s, pos + 1);
        if pos + 1 + inner < s.len() {
            Ok((TokenView::StringLiteral(s.subrange(pos + 1, pos + 1 + inner)), inner + 2))
        } else {
            Err(TokenizeError::UnterminatedString { position: byte_offset(s, pos) })
        }
    } else if word_len(s, classes, pos) > 0 {
        Ok(
            (
                classify_word(s.subrange(pos, pos + word_len(s, classes, pos))),
                word_len(s, classes, pos),
            ),
        )
    } else {
        Err(TokenizeError::UnexpectedCharacter { position: byte_offset(s, pos), character: c })
    }
}

/// The number of characters of `s` from `pos` on.
pub open spec fn remaining(s: Seq<char>, pos: int) -> nat {
    if pos <= s.len() {
        (s.len() - pos) as nat
    } else {
        0
    }
}

/// A token takes at least one character.
pub proof fn lemma_token_takes_characters(s: Seq<char>, classes: Seq<CharClass>, pos: int)
    ensures
        token_at(s, classes, pos) matches Ok((_, len)) ==> len >= 1,
{
}

/// The tokens of `s` from the character `pos` on, in order, or the first
/// error. White space separates tokens and is dropped.
pub open spec fn lex_from(s: Seq<char>, classes: Seq<CharClass>, pos: int) -> Result<
    Seq<TokenView>,
    TokenizeError,
>
    decreases remaining(s, pos),
{
    if pos < 0 || pos >= s.len() {
        Ok(Seq::empty())
    } else if classes[pos].whitespace {
        lex_from(s, classes, pos + 1)
    } else {
        match token_at(s, classes, pos) {
            Err(e) => Err(e),
            Ok((token, len)) => {
                proof {
                    lemma_token_takes_characters(s, classes, pos);
                }
                put_first(token, lex_from(s, classes, pos + len))
            },
        }
    }
}

/// `token` in front of the tokens of `rest`; the error of `rest` if it is one.
pub open spec fn put_first(token: TokenView, rest: Result<Seq<TokenView>, TokenizeError>) -> Result<
    Seq<TokenView>,
    TokenizeError,
> {
    match rest {
        Ok(tokens) => Ok(seq![token] + tokens),
        Err(e) => Err(e),
    }
}

/// `done` in front of the tokens of `rest`; the error of `rest` if it is one.
pub open spec fn put_before(done: Seq<TokenView>, rest: Result<Seq<TokenView>, TokenizeError>) -> Result<
    Seq<TokenView>,
    TokenizeError,
> {
    match rest {
        Ok(tokens) => Ok(done + tokens),
        Err(e) => Err(e),
    }
}

/// The tokens of the text `s` whose characters have the classes `classes`,
/// or the first error met from the left.
pub open spec fn lex_with(s: Seq<char>, classes: Seq<CharClass>) -> Result<
    Seq<TokenView>,
    TokenizeError,
> {
    lex_from(s, classes, 0)
}

/// The tokens of the text `s`, or the first error met from the left.
pub open spec fn lex(s: Seq<char>) -> Result<Seq<TokenView>, TokenizeError> {
    lex_with(s, classes_of(s))
}

proof fn lemma_put_before_step(
    done: Seq<TokenView>,
    token: TokenView,
    rest: Result<Seq<TokenView>, TokenizeError>,
)
    ensures
        put_before(done, put_first(token, rest)) == put_before(done.push(token), rest),
{
    if let Ok(tokens) = rest {
        assert(done + (seq![token] + tokens) =~= done.push(token) + tokens);
    }
}

/// Reads the operator that starts at `pos`, if one does.
fn tokenize_operator<'a>(s: &'a str, chars: &Vec<char>, pos: usize) -> (result: Option<
    (Token<'a>, usize),
>)
    requires
        chars@ == s@,
        pos < chars.len(),
    ensures
        match result {
            Some((token, len)) => 0 < len <= s@.len() - pos && len == operator_len(s@, pos as int)
                && token@ == TokenView::Operator(s@.subrange(pos as int, pos + len)),
            None => operator_len(s@, pos as int) == 0,
        },
{
    let c = chars[pos];
    let ghost two = s@.subrange(pos as int, pos + 2);
    let ghost one = s@.subrange(pos as int, pos + 1);
    if c == '=' && pos + 1 < chars.len() && chars[pos + 1] == '=' {
        assert(two =~= seq!['=', '=']);
        Some((Token::Operator(s.substring_char(pos, pos + 2)), 2))
    } else {
        assert(pos + 2 <= s@.len() && is_operator(two) ==> two[0] == '=' && two[1] == '=') by {
            if pos + 2 <= s@.len() && is_operator(two) {
                assert(two.len() == 2);
            }
        }
        assert(one[0] == c);
        if c == '+' || c == '-' || c == '=' {
            assert(one =~= seq![c]);
            Some((Token::Operator(s.substring_char(pos, pos + 1)), 1))
        } else {
            None
        }
    }
}

/// Reads the string literal that starts at `pos`, if the character there is
/// a double quote. The literal runs to the next double quote; its text is
/// taken as it stands.
fn tokenize_string_literal<'a>(s: &'a str, chars: &Vec<char>, pos: usize) -> (result: Result<
    Option<(Token<'a>, usize)>,
    TokenizeError,
>)
    requires
        chars@ == s@,
        pos < chars.len(),
    ensures
        match result {
            Ok(Some((token, len))) => {
                let inner = unquoted_len(s@, pos + 1);
                &&& s@[pos as int] == '"'
                &&& pos + 1 + inner < s@.len()
                &&& len == inner + 2
                &&& token@ == TokenView::StringLiteral(s@.subrange(pos + 1, pos + 1 + inner))
            },
            Ok(None) => s@[pos as int] != '"',
            Err(e) => {
                &&& s@[pos as int] == '"'
                &&& pos + 1 + unquoted_len(s@, pos + 1) >= s@.len()
                &&& e == TokenizeError::UnterminatedString { position: byte_offset(s@, pos as int) }
            },
        },
{
    if chars[pos] != '"' {
        return Ok(None);
    }
    let n = chars.len();
    let mut end: usize = pos + 1;
    while end < n && chars[end] != '"'
        invariant
            chars@ == s@,
            n == chars.len(),
            pos + 1 <= end <= n,
            unquoted_len(s@, pos + 1) == (end - (pos + 1)) + unquoted_len(s@, end as int),
        decreases n - end,
    {
        end += 1;
    }
    if end < n {
        Ok(Some((Token::StringLiteral(s.substring_char(pos + 1, end)), end - pos + 1)))
    } else {
        let before = s.substring_char(0, pos);
        Err(TokenizeError::UnterminatedString { position: before.len() })
    }
}

/// Reads the digits of `chars` from `from` up to `to` as a number, if they
/// are digits and the number fits in 64 bits.
fn parse_u64(chars: &Vec<char>, from: usize, to: usize) -> (result: Option<u64>)
    requires
        from < to <= chars.len(),
    ensures
        match result {
            Some(value) => is_u64_literal(chars@.subrange(from as int, to as int)) && value
                == decimal_value(chars@.subrange(from as int, to as int)),
            None => !is_u64_literal(chars@.subrange(from as int, to as int)),
        },
{
    let ghost w = chars@.subrange(from as int, to as int);
    let mut value: u64 = 0;
    let mut i: usize = from;
    while i < to
        invariant
            from <= i <= to <= chars.len(),
            w == chars@.subrange(from as int, to as int),
            all_decimal_digits(w.take(i - from)),
            value == decimal_value(w.take(i - from)),
        decreases to - i,
    {
        let c = chars[i];
        assert(w[i - from] == c);
        if !(c >= '0' && c <= '9') {
            return None;
        }
        let digit: u64 = (c as u32 - '0' as u32) as u64;
        proof {
            let longer = w.take(i - from + 1);
            assert(longer.drop_last() =~= w.take(i - from));
            lemma_decimal_value_prefix(w, i - from + 1);
            assert(all_decimal_digits(longer)) by {
                assert forall|k: int| 0 <= k < longer.len() implies '0' <= #[trigger] longer[k]
                    <= '9' by {}
            }
        }
        if value > (u64::MAX - digit) / 10 {
            return None;
        }
        value = value * 10 + digit;
        i += 1;
    }
    assert(w.take(to - from) =~= w);
    Some(value)
}

/// Reads the keyword, number or identifier that starts at `pos`: the longest
/// run of letters, digits and underscores there, if it is not empty.
fn tokenize_keywords_integers_ids<'a>(
    s: &'a str,
    chars: &Vec<char>,
    classes: &Vec<CharClass>,
    pos: usize,
) -> (result: Option<(Token<'a>, usize)>)
    requires
        chars@ == s@,
        classes@.len() == chars@.len(),
        pos < chars.len(),
    ensures
        match result {
            Some((token, len)) => 0 < len <= s@.len() - pos && len == word_len(
                s@,
                classes@,
                pos as int,
            ) && token@ == classify_word(s@.subrange(pos as int, pos + len)),
            None => word_len(s@, classes@, pos as int) == 0,
        },
{
    let n = chars.len();
    let mut end: usize = pos;
    while end < n && (classes[end].alphanumeric || chars[end] == '_')
        invariant
            chars@ == s@,
            classes@.len() == chars@.len(),
            n == chars.len(),
            pos <= end <= n,
            word_len(s@, classes@, pos as int) == (end - pos) + word_len(
                s@,
                classes@,
                end as int,
            ),
        decreases n - end,
    {
        end += 1;
    }
    if end == pos {
        return None;
    }
    let word = s.substring_char(pos, end);
    if *word == *"int" || *word == *"return" || *word == *"if" || *word == *"else" {
        return Some((Token::Keyword(word), end - pos));
    }
    match parse_u64(chars, pos, end) {
        Some(value) => Some((Token::IntegerLiteral(value), end - pos)),
        None => Some((Token::Identifier(word), end - pos)),
    }
}

/// Asks the standard library for the class of each character of `s`.
pub fn classify(s: &str) -> (classes: Vec<CharClass>)
    ensures
        classes@ == classes_of(s@),
{
    let chars = chars_of(s);
    let mut classes: Vec<CharClass> = Vec::new();
    let mut i: usize = 0;
    while i < chars.len()
        invariant
            chars@ == s@,
            i <= chars.len(),
            classes@ == classes_of(s@.take(i as int)),
        decreases chars.len() - i,
    {
        let c = chars[i];
        classes.push(CharClass { whitespace: c.is_whitespace(), alphanumeric: c.is_alphanumeric() });
        i += 1;
    }
    classes
}

/// Splits the text `s` into its tokens, given the class of each of its
/// characters.
///
/// The scan goes from left to right and skips white space. Parentheses,
/// braces and the semicolon are tokens of their own; then the longest
/// operator is tried, then a string literal, then a run of word characters.
/// A character that starts none of these ends the scan with an error that
/// names it and its byte offset; so does a string literal without a closing
/// quote.
pub fn tokenize_classified<'a>(s: &'a str, classes: &Vec<CharClass>) -> (result: Result<
    Vec<Token<'a>>,
    TokenizeError,
>)
    requires
        classes@.len() == s@.len(),
    ensures
        match result {
            Ok(tokens) => lex_with(s@, classes@) == Ok::<Seq<TokenView>, TokenizeError>(
                token_views(tokens@),
            ),
            Err(e) => lex_with(s@, classes@) == Err::<Seq<TokenView>, TokenizeError>(e),
        },
{
    let chars = chars_of(s);
    let n = chars.len();
    let mut pos: usize = 0;
    let mut tokens: Vec<Token<'a>> = Vec::new();
    while pos < n
        invariant
            chars@ == s@,
            classes@.len() == s@.len(),
            n == chars.len(),
            pos <= n,
            lex_with(s@, classes@) == put_before(
                token_views(tokens@),
                lex_from(s@, classes@, pos as int),
            ),
        decreases n - pos,
    {
        let c = chars[pos];
        if classes[pos].whitespace {
            pos += 1;
        } else {
            let found: Option<(Token<'a>, usize)> = if c == '(' {
                Some((Token::OpenParen, 1))
            } else if c == ')' {
                Some((Token::CloseParen, 1))
            } else if c == '{' {
                Some((Token::OpenBrace, 1))
            } else if c == '}' {
                Some((Token::CloseBrace, 1))
            } else if c == ';' {
                Some((Token::Semicolon, 1))
            } else {
                match tokenize_operator(s, &chars, pos) {
                    Some(found) => Some(found),
                    None => match tokenize_string_literal(s, &chars, pos) {
                        Err(e) => {
                            return Err(e);
                        },
                        Ok(Some(found)) => Some(found),
                        Ok(None) => tokenize_keywords_integers_ids(s, &chars, classes, pos),
                    },
                }
            };
            match found {
                None => {
                    let before = s.substring_char(0, pos);
                    return Err(
                        TokenizeError::UnexpectedCharacter { position: before.len(), character: c },
                    );
                },
                Some((token, len)) => {
                    proof {
                        lemma_put_before_step(
                            token_views(tokens@),
                            token@,
                            lex_from(s@, classes@, pos + len),
                        );
                        assert(token_views(tokens@.push(token)) =~= token_views(tokens@).push(
                            token@,
                        ));
                    }
                    tokens.push(token);
                    pos += len;
                },
            }
        }
    }
    Ok(tokens)
}

/// Splits the text `s` into its tokens.
///
/// Which characters are white space and which are letters or digits is
/// asked of the standard library; the rest is
/// [`tokenize_classified`].
pub fn tokenize<'a>(s: &'a str) -> (result: Result<Vec<Token<'a>>, TokenizeError>)
    ensures
        match result {
            Ok(tokens) => lex(s@) == Ok::<Seq<TokenView>, TokenizeError>(token_views(tokens@)),
            Err(e) => lex(s@) == Err::<Seq<TokenView>, TokenizeError>(e),
        },
{
    let classes = classify(s);
    tokenize_classified(s, &classes)
}

} // verus!
