use vstd::prelude::*;

verus! {

#[derive(PartialEq, Eq, Debug)]
pub enum Token {
    ParenLeft,
    ParenRight,
    Name(String),
    Number(String),
    Str(String),
}

/// The mathematical form of a `Token`.
pub enum Lexeme {
    ParenLeft,
    ParenRight,
    Name(Seq<char>),
    Number(Seq<char>),
    Str(Seq<char>),
}

impl View for Token {
    type V = Lexeme;

    open spec fn view(&self) -> Lexeme {
        match self {
            Token::ParenLeft => Lexeme::ParenLeft,
            Token::ParenRight => Lexeme::ParenRight,
            Token::Name(s) => Lexeme::Name(s@),
            Token::Number(s) => Lexeme::Number(s@),
            Token::Str(s) => Lexeme::Str(s@),
        }
    }
}

pub open spec fn lexemes(tokens: Seq<Token>) -> Seq<Lexeme> {
    tokens.map_values(|t: Token| t@)
}

pub open spec fn is_digit(c: char) -> bool {
    '0' <= c <= '9'
}

pub open spec fn is_letter(c: char) -> bool {
    ('a' <= c <= 'z') || ('A' <= c <= 'Z')
}

/// The end of the run of digits that starts at `i`.
pub open spec fn digits_end(s: Seq<char>, i: int) -> int
    decreases s.len() - i,
{
    if 0 <= i < s.len() && is_digit(s[i]) {
        digits_end(s, i + 1)
    } else {
        i
    }
}

/// The end of the run of letters that starts at `i`.
pub open spec fn letters_end(s: Seq<char>, i: int) -> int
    decreases s.len() - i,
{
    if 0 <= i < s.len() && is_letter(s[i]) {
        letters_end(s, i + 1)
    } else {
        i
    }
}

/// The place of the first double quote at or after `i`, or the end of `s`.
pub open spec fn quote_end(s: Seq<char>, i: int) -> int
    decreases s.len() - i,
{
    if 0 <= i < s.len() && s[i] != '"' {
        quote_end(s, i + 1)
    } else {
        i
    }
}

pub open spec fn prepend(t: Lexeme, rest: Option<Seq<Lexeme>>) -> Option<Seq<Lexeme>> {
    match rest {
        Some(r) => Some(seq![t] + r),
        None => None,
    }
}

/// The tokens of `s` from place `i` on, or `None` where a character that
/// no token can start with comes first. Spaces separate tokens; a number
/// starts with a digit from 1 to 9; a string runs to the next double quote,
/// or to the end of the text where none follows.
pub open spec fn lex(s: Seq<char>, i: int) -> Option<Seq<Lexeme>>
    decreases s.len() - i,
    via lex_decreases
{
    if i < 0 || i >= s.len() {
        Some(Seq::empty())
    } else {
        let c = s[i];
        if c == '(' {
            prepend(Lexeme::ParenLeft, lex(s, i + 1))
        } else if c == ')' {
            prepend(Lexeme::ParenRight, lex(s, i + 1))
        } else if c == ' ' {
            lex(s, i + 1)
        } else if '1' <= c <= '9' {
            let j = digits_end(s, i + 1);
            prepend(Lexeme::Number(s.subrange(i, j)), lex(s, j))
        } else if c == '"' {
            let j = quote_end(s, i + 1);
            let next = if j < s.len() {
                j + 1
            } else {
                j
            };
            prepend(Lexeme::Str(s.subrange(i + 1, j)), lex(s, next))
        } else if is_letter(c) {
            let j = letters_end(s, i + 1);
            prepend(Lexeme::Name(s.subrange(i, j)), lex(s, j))
        } else {
            None
        }
    }
}

proof fn lemma_runs_bounded(s: Seq<char>, i: int)
    requires
        0 <= i <= s.len(),
    ensures
        i <= digits_end(s, i) <= s.len(),
        i <= letters_end(s, i) <= s.len(),
        i <= quote_end(s, i) <= s.len(),
    decreases s.len() - i,
{
    if i < s.len() {
        lemma_runs_bounded(s, i + 1);
    }
}

#[via_fn]
proof fn lex_decreases(s: Seq<char>, i: int) {
    if 0 <= i < s.len() {
        lemma_runs_bounded(s, i + 1);
    }
}

/// The tokens `p` followed by those of `rest`, where `rest` has any.
pub open spec fn glue(p: Seq<Lexeme>, rest: Option<Seq<Lexeme>>) -> Option<Seq<Lexeme>> {
    match rest {
        Some(r) => Some(p + r),
        None => None,
    }
}

proof fn lemma_glue_push(p: Seq<Lexeme>, t: Lexeme, rest: Option<Seq<Lexeme>>)
    ensures
        glue(p, prepend(t, rest)) == glue(p.push(t), rest),
{
    if let Some(r) = rest {
        assert(p + (seq![t] + r) =~= p.push(t) + r);
    }
}

proof fn lemma_lexemes_push(tokens: Seq<Token>, t: Token)
    ensures
        lexemes(tokens.push(t)) == lexemes(tokens).push(t@),
{
    assert(lexemes(tokens.push(t)) =~= lexemes(tokens).push(t@));
}

fn scan_digits(input: &str, len: usize, i: usize) -> (j: usize)
    requires
        len == input@.len(),
        i <= len,
    ensures
        i <= j <= len,
        j == digits_end(input@, i as int),
{
    let mut j = i;
    while j < len && '0' <= input.get_char(j) && input.get_char(j) <= '9'
        invariant
            i <= j <= len,
            len == input@.len(),
            digits_end(input@, i as int) == digits_end(input@, j as int),
        decreases len - j,
    {
        j = j + 1;
    }
    j
}

fn scan_letters(input: &str, len: usize, i: usize) -> (j: usize)
    requires
        len == input@.len(),
        i <= len,
    ensures
        i <= j <= len,
        j == letters_end(input@, i as int),
{
    let mut j = i;
    while j < len && is_letter_char(input.get_char(j))
        invariant
            i <= j <= len,
            len == input@.len(),
            letters_end(input@, i as int) == letters_end(input@, j as int),
        decreases len - j,
    {
        j = j + 1;
    }
    j
}

fn scan_to_quote(input: &str, len: usize, i: usize) -> (j: usize)
    requires
        len == input@.len(),
        i <= len,
    ensures
        i <= j <= len,
        j == quote_end(input@, i as int),
{
    let mut j = i;
    while j < len && input.get_char(j) != '"'
        invariant
            i <= j <= len,
            len == input@.len(),
            quote_end(input@, i as int) == quote_end(input@, j as int),
        decreases len - j,
    {
        j = j + 1;
    }
    j
}

fn is_letter_char(c: char) -> (r: bool)
    ensures
        r == is_letter(c),
{
    ('a' <= c && c <= 'z') || ('A' <= c && c <= 'Z')
}

/// Splits `input` into tokens, or gives `None` where it holds a character
/// that no token can start with.
pub fn try_tokenizer(input: &str) -> (r: Option<Vec<Token>>)
    ensures
        match r {
            Some(tokens) => lex(input@, 0) == Some(lexemes(tokens@)),
            None => lex(input@, 0) is None,
        },
{
    let len = input.unicode_len();
    let ghost s = input@;
    let mut tokens: Vec<Token> = Vec::new();
    let mut current: usize = 0;
    proof {
        assert(lexemes(tokens@) + lex(s, 0)->0 =~= lex(s, 0)->0);
    }
    while current < len
        invariant
            len == s.len(),
            s == input@,
            current <= len,
            lex(s, 0) == glue(lexemes(tokens@), lex(s, current as int)),
        decreases len - current,
    {
        let c = input.get_char(current);
        let ghost here = current as int;
        if c == '(' {
            proof {
                lemma_glue_push(lexemes(tokens@), Lexeme::ParenLeft, lex(s, here + 1));
                lemma_lexemes_push(tokens@, Token::ParenLeft);
            }
            tokens.push(Token::ParenLeft);
            current = current + 1;
        } else if c == ')' {
            proof {
                lemma_glue_push(lexemes(tokens@), Lexeme::ParenRight, lex(s, here + 1));
                lemma_lexemes_push(tokens@, Token::ParenRight);
            }
            tokens.push(Token::ParenRight);
            current = current + 1;
        } else if c == ' ' {
            current = current + 1;
        } else if '1' <= c && c <= '9' {
            let end = scan_digits(input, len, current + 1);
            let t = Token::Number(input.substring_char(current, end).to_owned());
            proof {
                lemma_glue_push(lexemes(tokens@), t@, lex(s, end as int));
                lemma_lexemes_push(tokens@, t);
            }
            tokens.push(t);
            current = end;
        } else if c == '"' {
            let end = scan_to_quote(input, len, current + 1);
            let t = Token::Str(input.substring_char(current + 1, end).to_owned());
            let next = if end < len {
                end + 1
            } else {
                end
            };
            proof {
                lemma_glue_push(lexemes(tokens@), t@, lex(s, next as int));
                lemma_lexemes_push(tokens@, t);
            }
            tokens.push(t);
            current = next;
        } else if is_letter_char(c) {
            let end = scan_letters(input, len, current + 1);
            let t = Token::Name(input.substring_char(current, end).to_owned());
            proof {
                lemma_glue_push(lexemes(tokens@), t@, lex(s, end as int));
                lemma_lexemes_push(tokens@, t);
            }
            tokens.push(t);
            current = end;
        } else {
            return None;
        }
    }
    proof {
        assert(lexemes(tokens@) + Seq::<Lexeme>::empty() =~= lexemes(tokens@));
    }
    Some(tokens)
}

/// Splits `input` into tokens; every character of it must be one that a
/// token can start with, or stand inside a name, number or string.
pub fn tokenizer(input: &str) -> (r: Vec<Token>)
    requires
        lex(input@, 0) is Some,
    ensures
        lex(input@, 0) == Some(lexemes(r@)),
{
    match try_tokenizer(input) {
        Some(tokens) => tokens,
        None => {
            proof {
                assert(false);
            }
            Vec::new()
        },
    }
}

} // verus!
